use vstd::prelude::*;
use vstd::string::StrSliceExecFns;
use vstd::string::StringExecFns;

use crate::helpers::Cache;
use crate::rule::{copy_states, lemma_rules_of, qualifies, rules_of, Rule, State};

verus! {

/// The input has no characters.
pub const EMPTY_INPUT_ERROR: &'static str = "First character not found. Exiting.";

/// There are no top-level nodes.
pub const NO_RULES_ERROR: &'static str = "No valid states are found to fulfill. Exiting.";

/// No character stands under the cursor.
pub const CURSOR_OUT_OF_BOUNDS_ERROR: &'static str = "Failed to get current character or out of bounds";

/// The frontier points at no node.
pub const NO_CURRENT_STATE_ERROR: &'static str = "Failed to retrieve state based on curent counts information.";

/// No node has been activated.
pub const NO_COUNT_ERROR: &'static str = "Failed to retrieve current count.";

/// A count would not fit in a machine word.
pub const COUNT_OVERFLOW_ERROR: &'static str = "Count does not fit.";

/// Expansion was asked of a leaf.
pub const NOT_A_GROUP_ERROR: &'static str = "The state is not of a block type.";

/// Expansion was asked with a number of repetitions outside the group's bounds.
pub const INVALID_MULTIPLICITY_ERROR: &'static str = "Multiplicity is not valid.";

/// The errors that can stop a search once it has started.
pub open spec fn search_error(e: &str) -> bool {
    e == CURSOR_OUT_OF_BOUNDS_ERROR || e == NO_CURRENT_STATE_ERROR || e == NO_COUNT_ERROR || e
        == COUNT_OVERFLOW_ERROR || e == NOT_A_GROUP_ERROR || e == INVALID_MULTIPLICITY_ERROR
}

/// The weight of a node for a search over `l` characters: a group weighs more
/// than `l` copies of all its children together, so replacing it by at most
/// `l` copies makes the search smaller.
pub open spec fn weight(r: Rule, l: nat) -> nat
    decreases r, 1nat,
{
    match r.group {
        Some(g) => 1 + l * weights(g, l),
        None => 1,
    }
}

/// The total weight of a sequence of nodes.
pub open spec fn weights(g: Seq<Rule>, l: nat) -> nat
    decreases g, 0nat,
{
    if g.len() == 0 {
        0
    } else {
        weight(g[0], l) + weights(g.subrange(1, g.len() as int), l)
    }
}

/// `m` copies of a sequence, one after the other.
pub open spec fn repeat(g: Seq<Rule>, m: nat) -> Seq<Rule>
    decreases m,
{
    if m == 0 {
        Seq::empty()
    } else {
        repeat(g, (m - 1) as nat) + g
    }
}

/// The sum of a sequence of counts.
pub open spec fn total(s: Seq<usize>) -> int
    decreases s.len(),
{
    if s.len() == 0 {
        0
    } else {
        total(s.drop_last()) + s.last()
    }
}

pub proof fn lemma_weights_concat(a: Seq<Rule>, b: Seq<Rule>, l: nat)
    ensures
        weights(a + b, l) == weights(a, l) + weights(b, l),
    decreases a.len(),
{
    if a.len() > 0 {
        lemma_weights_concat(a.subrange(1, a.len() as int), b, l);
        assert((a + b).subrange(1, (a + b).len() as int) =~= a.subrange(1, a.len() as int) + b);
        assert((a + b)[0] == a[0]);
    } else {
        assert(a + b =~= b);
    }
}

pub proof fn lemma_weights_repeat(g: Seq<Rule>, m: nat, l: nat)
    ensures
        weights(repeat(g, m), l) == m * weights(g, l),
    decreases m,
{
    if m > 0 {
        lemma_weights_repeat(g, (m - 1) as nat, l);
        lemma_weights_concat(repeat(g, (m - 1) as nat), g, l);
        assert(m * weights(g, l) == (m - 1) * weights(g, l) + weights(g, l)) by (nonlinear_arith);
    } else {
        assert(repeat(g, 0) =~= Seq::<Rule>::empty());
    }
}

proof fn lemma_total_nonneg(s: Seq<usize>)
    ensures
        total(s) >= 0,
    decreases s.len(),
{
    if s.len() > 0 {
        lemma_total_nonneg(s.drop_last());
    }
}

/// A longer prefix of the counts sums to at least as much.
proof fn lemma_total_prefix_le(s: Seq<usize>, i: int, j: int)
    requires
        0 <= i <= j <= s.len(),
    ensures
        total(s.subrange(0, i)) <= total(s.subrange(0, j)),
    decreases j - i,
{
    if i < j {
        lemma_total_prefix_le(s, i, j - 1);
        assert(s.subrange(0, j).drop_last() =~= s.subrange(0, j - 1));
    }
}

proof fn lemma_total_push(s: Seq<usize>, v: usize)
    ensures
        total(s.push(v)) == total(s) + v,
{
    assert(s.push(v).drop_last() =~= s);
}

proof fn lemma_total_bump(s: Seq<usize>, v: usize)
    requires
        s.len() > 0,
        s.last() + 1 == v,
    ensures
        total(s.update(s.len() - 1, v)) == total(s) + 1,
{
    assert(s.update(s.len() - 1, v).drop_last() =~= s.drop_last());
}

/// The values of a sequence of nodes grow one at a time.
proof fn lemma_rules_of_push(v: Seq<State>, s: State)
    ensures
        rules_of(v.push(s)) == rules_of(v).push(s@),
{
    lemma_rules_of(v);
    lemma_rules_of(v.push(s));
    assert(rules_of(v.push(s)) =~= rules_of(v).push(s@));
}

/// A group that passes the peek has at least one child.
proof fn lemma_qualifying_group_nonempty(r: Rule, c: char)
    requires
        r.group is Some,
        qualifies(r, c),
    ensures
        r.members().len() > 0,
{
}

/// Activating the next node leaves less to search.
pub proof fn lemma_advance_rank(mdl: Seq<Rule>, k: int, l: nat)
    requires
        1 <= k <= mdl.len(),
    ensures
        weights(mdl.subrange(k, mdl.len() as int), l) < weights(mdl.subrange(k - 1, mdl.len() as int), l),
{
    let s = mdl.subrange(k - 1, mdl.len() as int);
    assert(s.subrange(1, s.len() as int) =~= mdl.subrange(k, mdl.len() as int));
    assert(weights(s, l) == weight(s[0], l) + weights(s.subrange(1, s.len() as int), l));
    match s[0].group {
        Some(g) => {
            assert(l * weights(g, l) >= 0) by (nonlinear_arith);
        },
        None => {},
    }
    assert(weight(s[0], l) >= 1);
}

/// Replacing a group by at most `l` copies of its children leaves less to search.
pub proof fn lemma_expand_rank(mdl: Seq<Rule>, k: int, m: nat, l: nat)
    requires
        1 <= k <= mdl.len(),
        mdl[k - 1].group is Some,
        m <= l,
    ensures
        ({
            let g = mdl[k - 1].members();
            let e = mdl.subrange(0, k - 1) + repeat(g, m) + mdl.subrange(k, mdl.len() as int);
            &&& k - 1 <= e.len()
            &&& weights(e.subrange(k - 1, e.len() as int), l) < weights(
                mdl.subrange(k - 1, mdl.len() as int),
                l,
            )
        }),
{
    let g = mdl[k - 1].members();
    let rest = mdl.subrange(k, mdl.len() as int);
    let e = mdl.subrange(0, k - 1) + repeat(g, m) + rest;
    assert(e.subrange(k - 1, e.len() as int) =~= repeat(g, m) + rest);
    lemma_weights_concat(repeat(g, m), rest, l);
    lemma_weights_repeat(g, m, l);
    lemma_advance_rank(mdl, k, l);
    let s = mdl.subrange(k - 1, mdl.len() as int);
    assert(s[0] == mdl[k - 1]);
    assert(s.subrange(1, s.len() as int) =~= rest);
    assert(weights(s, l) == weight(s[0], l) + weights(rest, l));
    assert(weight(mdl[k - 1], l) == 1 + l * weights(g, l));
    assert(m * weights(g, l) <= l * weights(g, l)) by (nonlinear_arith)
        requires
            m <= l,
    ;
    assert(weights(e.subrange(k - 1, e.len() as int), l) == m * weights(g, l) + weights(rest, l));
}

/// The rank of a search point: the weight of the nodes from the current one on.
pub open spec fn rank_of(model: Seq<Rule>, k: int, l: nat) -> nat {
    if 1 <= k <= model.len() + 1 {
        weights(model.subrange(k - 1, model.len() as int), l)
    } else {
        0
    }
}

/// A search point is coherent: the frontier is past the first node and at
/// most one past the last, and the cursor lies within the input.
pub open spec fn coherent(input: Seq<char>, model: Seq<Rule>, counts: Seq<usize>, pos: int) -> bool {
    &&& 1 <= counts.len() <= model.len() + 1
    &&& 0 <= pos <= input.len()
}

/// Every node was activated and took a count within its bounds.
pub open spec fn all_within(model: Seq<Rule>, counts: Seq<usize>) -> bool {
    &&& counts.len() == model.len()
    &&& forall|i: int| 0 <= i < counts.len() ==> #[trigger] model[i].within(counts[i] as int)
}

/// Whether the current node takes the character under the cursor; `None`
/// when there is no character or no current node.
pub open spec fn takes_now(input: Seq<char>, model: Seq<Rule>, counts: Seq<usize>, pos: int) -> Option<bool> {
    let k = counts.len() as int;
    if 0 <= pos < input.len() && 1 <= k <= model.len() {
        Some(qualifies(model[k - 1], input[pos]) && counts[k - 1] < usize::MAX && model[k
            - 1].within_upper(counts[k - 1] + 1))
    } else {
        None
    }
}

/// Whether the node after the current one takes the character under the cursor as its first.
pub open spec fn takes_next(input: Seq<char>, model: Seq<Rule>, counts: Seq<usize>, pos: int) -> bool {
    let k = counts.len() as int;
    k < model.len() && 0 <= pos < input.len() && qualifies(model[k], input[pos]) && model[k].within(1)
}

/// The counts with one more character credited to the current node.
pub open spec fn bump(counts: Seq<usize>) -> Seq<usize> {
    counts.update(counts.len() - 1, (counts.last() + 1) as usize)
}

/// The nodes with the `k`-th (a group) replaced by `m` copies of its children.
pub open spec fn expanded(model: Seq<Rule>, k: int, m: nat) -> Seq<Rule> {
    model.subrange(0, k) + repeat(model[k].members(), m) + model.subrange(k + 1, model.len() as int)
}

/// The largest number of repetitions tried for the current group: its `max`,
/// and no more copies than the rest of the input can fill.
pub open spec fn repeat_limit(input: Seq<char>, g: Rule, pos: int) -> int {
    let fit = (input.len() - pos) / (g.members().len() as int);
    match g.max {
        Some(mx) => if mx < fit {
            mx as int
        } else {
            fit
        },
        None => fit,
    }
}

/// Where a search ends: whether it accepted, and the nodes, counts and cursor
/// it stops with.
pub type SearchEnd = (bool, Seq<Rule>, Seq<usize>, int);

/// The error of a search that finds no current node or character to work on.
pub open spec fn point_error(input: Seq<char>, pos: int) -> &'static str {
    if 0 <= pos < input.len() {
        NO_CURRENT_STATE_ERROR
    } else {
        CURSOR_OUT_OF_BOUNDS_ERROR
    }
}

/// What the backtracking search decides from a point, with the point it
/// stops at, or the error it stops on.
pub open spec fn search(input: Seq<char>, model: Seq<Rule>, counts: Seq<usize>, pos: int) -> Result<
    SearchEnd,
    &'static str,
>
    decreases input.len() - pos, rank_of(model, counts.len() as int, input.len()), 1int, 0int,
{
    let k = counts.len() as int;
    if !coherent(input, model, counts, pos) {
        Err(point_error(input, pos))
    } else if pos >= input.len() {
        Ok((all_within(model, counts), model, counts, pos))
    } else {
        match takes_now(input, model, counts, pos) {
            None => Err(point_error(input, pos)),
            Some(now) => {
                let next = takes_next(input, model, counts, pos);
                let skip = k < model.len() && model[k].min == 0;
                if now && model[k - 1].group is Some {
                    let g = model[k - 1];
                    if g.members().len() > 0 && g.min <= repeat_limit(input, g, pos) {
                        tries(input, model, counts, pos, g.min as int)
                    } else {
                        Ok((false, model, counts, pos))
                    }
                } else if !now && next {
                    proof {
                        lemma_advance_rank(model, k, input.len());
                    }
                    search(input, model, counts.push(0), pos)
                } else if !now && !next {
                    if !skip {
                        Ok((false, model, counts, pos))
                    } else if k + 1 >= model.len() {
                        Ok((false, model, counts.push(0), pos))
                    } else {
                        proof {
                            lemma_advance_rank(model, k, input.len());
                            lemma_advance_rank(model, k + 1, input.len());
                        }
                        search(input, model, counts.push(0).push(0), pos)
                    }
                } else if now && !next {
                    search(input, model, bump(counts), pos + 1)
                } else {
                    proof {
                        lemma_advance_rank(model, k, input.len());
                    }
                    match search(input, model, counts.push(0), pos) {
                        Err(e) => Err(e),
                        Ok(end) => if end.0 {
                            Ok(end)
                        } else {
                            search(input, model, bump(counts), pos + 1)
                        },
                    }
                }
            },
        }
    }
}

/// The search over the repetitions of the current group from `m` on: the
/// first that leads to acceptance wins; when none does, the search ends
/// where the last one did.
pub open spec fn tries(input: Seq<char>, model: Seq<Rule>, counts: Seq<usize>, pos: int, m: int) -> Result<
    SearchEnd,
    &'static str,
>
    decreases input.len() - pos, rank_of(model, counts.len() as int, input.len()), 0int,
        repeat_limit(input, model[counts.len() - 1], pos) - m,
{
    let k = counts.len() as int;
    if !coherent(input, model, counts, pos) || !(1 <= k <= model.len()) || model[k - 1].group is None
        || model[k - 1].members().len() == 0 || m < 0 {
        Err(NOT_A_GROUP_ERROR)
    } else if m > repeat_limit(input, model[k - 1], pos) {
        Ok((false, model, counts, pos))
    } else {
        proof {
            let size = model[k - 1].members().len() as int;
            let rest = input.len() - pos;
            assert(rest / size <= rest) by (nonlinear_arith)
                requires
                    size >= 1,
                    rest >= 0,
            ;
            lemma_expand_rank(model, k, m as nat, input.len());
        }
        match search(input, expanded(model, k - 1, m as nat), counts, pos) {
            Err(e) => Err(e),
            Ok(end) => if end.0 || m == repeat_limit(input, model[k - 1], pos) {
                Ok(end)
            } else {
                tries(input, model, counts, pos, m + 1)
            },
        }
    }
}

/// The view of extracted pairs: each node's value with the characters it took.
pub open spec fn pairs_view(v: Seq<(State, String)>) -> Seq<(Rule, Seq<char>)> {
    v.map_values(|p: (State, String)| (p.0@, p.1@))
}

/// The matching engine: the top-level nodes, the input, how many characters
/// each activated node has taken, and the read cursor.
pub struct Engine {
    pub states: Vec<State>,
    pub input_string: String,
    pub counts: Vec<usize>,
    pub cur_char_pos: usize,
    pub matched: bool,
}

impl Engine {
    /// The top-level nodes as values.
    pub open spec fn model(&self) -> Seq<Rule> {
        rules_of(self.states@)
    }

    /// The input, character by character.
    pub open spec fn input(&self) -> Seq<char> {
        self.input_string@
    }

    /// The search state is coherent: the frontier is past the first node and
    /// at most one past the last, and the cursor lies within the input.
    pub open spec fn wf(&self) -> bool {
        &&& 1 <= self.counts@.len() <= self.states@.len() + 1
        &&& self.cur_char_pos <= self.input().len()
        &&& total(self.counts@) == self.cur_char_pos
    }

    /// What is left to search at the current cursor: the weight of the nodes
    /// from the current one on.
    pub open spec fn rank(&self) -> nat {
        let k = self.counts@.len();
        if 1 <= k <= self.states@.len() + 1 {
            weights(self.model().subrange(k - 1, self.model().len() as int), self.input().len())
        } else {
            0
        }
    }

    /// Every top-level node has been activated and took a count within its bounds.
    pub open spec fn accepts(&self) -> bool {
        &&& self.counts@.len() == self.states@.len()
        &&& forall|i: int|
            0 <= i < self.counts@.len() ==> #[trigger] self.model()[i].within(self.counts@[i] as int)
    }

    /// Where the span of the `i`-th node starts: the sum of the counts before it.
    pub open spec fn span_start(&self, i: int) -> int {
        total(self.counts@.subrange(0, i))
    }

    /// The characters that the `i`-th node took.
    pub open spec fn span(&self, i: int) -> Seq<char> {
        self.input().subrange(self.span_start(i), self.span_start(i + 1))
    }

    /// The concatenation of the spans of the first `n` nodes.
    pub open spec fn spans(&self, n: int) -> Seq<char>
        decreases n,
    {
        if n <= 0 {
            Seq::empty()
        } else {
            self.spans(n - 1) + self.span(n - 1)
        }
    }

    /// The extracted pairs among the first `n` nodes: each tagged leaf with its span.
    pub open spec fn picked(&self, n: int) -> Seq<(Rule, Seq<char>)>
        decreases n,
    {
        if n <= 0 {
            Seq::empty()
        } else if self.model()[n - 1].group is None && self.model()[n - 1].identifier != 0 {
            self.picked(n - 1).push((self.model()[n - 1], self.span(n - 1)))
        } else {
            self.picked(n - 1)
        }
    }

    /// Creates an engine over an input and its top-level nodes.
    pub fn new(input_string: String, states: Vec<State>) -> (r: Self)
        ensures
            r.input_string == input_string,
            r.states == states,
            r.counts@.len() == 0,
            r.cur_char_pos == 0,
            !r.matched,
    {
        let state_count = states.len();
        Engine {
            states,
            input_string,
            counts: Vec::with_capacity(state_count),
            cur_char_pos: 0,
            matched: false,
        }
    }

    pub fn get_input_string(&self) -> (r: &String)
        ensures
            r == &self.input_string,
    {
        &self.input_string
    }

    /// The length of the input in characters.
    pub fn input_string_len(&self) -> (r: usize)
        ensures
            r == self.input().len(),
    {
        self.input_string.as_str().unicode_len()
    }

    pub fn get_states(&self) -> (r: &Vec<State>)
        ensures
            r == &self.states,
    {
        &self.states
    }

    pub fn get_states_mut(&mut self) -> (r: &mut Vec<State>)
        ensures
            *r == old(self).states,
            final(self).states == *final(r),
            final(self).input_string == old(self).input_string,
            final(self).counts == old(self).counts,
            final(self).cur_char_pos == old(self).cur_char_pos,
            final(self).matched == old(self).matched,
    {
        &mut self.states
    }

    pub fn get_counts_mut(&mut self) -> (r: &mut Vec<usize>)
        ensures
            *r == old(self).counts,
            final(self).counts == *final(r),
            final(self).input_string == old(self).input_string,
            final(self).states == old(self).states,
            final(self).cur_char_pos == old(self).cur_char_pos,
            final(self).matched == old(self).matched,
    {
        &mut self.counts
    }

    pub fn get_cur_pos_mut(&mut self) -> (r: &mut usize)
        ensures
            *r == old(self).cur_char_pos,
            final(self).cur_char_pos == *final(r),
            final(self).input_string == old(self).input_string,
            final(self).states == old(self).states,
            final(self).counts == old(self).counts,
            final(self).matched == old(self).matched,
    {
        &mut self.cur_char_pos
    }

    pub fn get_counts(&self) -> (r: &Vec<usize>)
        ensures
            r == &self.counts,
    {
        &self.counts
    }

    pub fn get_cur_pos(&self) -> (r: usize)
        ensures
            r == self.cur_char_pos,
    {
        self.cur_char_pos
    }

    /// Moves the cursor one character on, unless it stands on the last one.
    pub fn advance(&mut self) -> (r: bool)
        ensures
            r == (old(self).cur_char_pos + 1 < old(self).input().len()),
            r ==> final(self).cur_char_pos == old(self).cur_char_pos + 1,
            !r ==> final(self).cur_char_pos == old(self).cur_char_pos,
            final(self).states == old(self).states,
            final(self).input_string == old(self).input_string,
            final(self).counts == old(self).counts,
            final(self).matched == old(self).matched,
    {
        let n = self.input_string_len();
        if self.cur_char_pos >= n || n - self.cur_char_pos <= 1 {
            false
        } else {
            self.cur_char_pos = self.cur_char_pos + 1;
            true
        }
    }

    /// Puts the cursor past the input's end.
    pub fn finish(&mut self)
        ensures
            final(self).cur_char_pos == old(self).input().len(),
            final(self).states == old(self).states,
            final(self).input_string == old(self).input_string,
            final(self).counts == old(self).counts,
            final(self).matched == old(self).matched,
    {
        self.cur_char_pos = self.input_string_len();
    }

    pub fn is_finished(&self) -> (r: bool)
        ensures
            r == (self.cur_char_pos >= self.input().len()),
    {
        self.cur_char_pos >= self.input_string_len()
    }

    /// Whether the cursor stands on the last character.
    pub fn cursor_is_at_end(&self) -> (r: bool)
        ensures
            r == (self.cur_char_pos + 1 == self.input().len()),
    {
        let n = self.input_string_len();
        n > 0 && self.cur_char_pos == n - 1
    }

    /// Activates the next node with a zero count, if there is one.
    pub fn advance_state(&mut self) -> (r: bool)
        ensures
            r == (old(self).counts@.len() < old(self).states@.len()),
            r ==> final(self).counts@ == old(self).counts@.push(0),
            !r ==> final(self).counts == old(self).counts,
            final(self).states == old(self).states,
            final(self).input_string == old(self).input_string,
            final(self).cur_char_pos == old(self).cur_char_pos,
            final(self).matched == old(self).matched,
    {
        if self.counts.len() >= self.states.len() {
            false
        } else {
            self.counts.push(0);
            true
        }
    }

    /// The character under the cursor, if there is one.
    pub fn get_cur_char(&self) -> (r: Option<char>)
        ensures
            self.cur_char_pos < self.input().len() ==> r == Some(self.input()[self.cur_char_pos as int]),
            self.cur_char_pos >= self.input().len() ==> r is None,
    {
        if self.cur_char_pos < self.input_string_len() {
            Some(self.input_string.as_str().get_char(self.cur_char_pos))
        } else {
            None
        }
    }

    /// Credits one more character to the current node.
    pub fn add_current_count(&mut self) -> (r: Result<(), &'static str>)
        ensures
            r is Ok <==> (old(self).counts@.len() > 0 && old(self).counts@.last() < usize::MAX),
            r is Ok ==> final(self).counts@ == old(self).counts@.update(
                old(self).counts@.len() - 1,
                (old(self).counts@.last() + 1) as usize,
            ),
            r is Err ==> final(self).counts == old(self).counts,
            r is Err ==> r->Err_0 == NO_COUNT_ERROR || r->Err_0 == COUNT_OVERFLOW_ERROR,
            final(self).states == old(self).states,
            final(self).input_string == old(self).input_string,
            final(self).cur_char_pos == old(self).cur_char_pos,
            final(self).matched == old(self).matched,
    {
        let n = self.counts.len();
        if n == 0 {
            return Err(NO_COUNT_ERROR);
        }
        let last = self.counts[n - 1];
        if last == usize::MAX {
            return Err(COUNT_OVERFLOW_ERROR);
        }
        self.counts.set(n - 1, last + 1);
        Ok(())
    }

    /// The node that the last count belongs to.
    pub fn get_current_state(&self) -> (r: Option<&State>)
        ensures
            (1 <= self.counts@.len() <= self.states@.len()) ==> r == Some(
                &self.states@[self.counts@.len() - 1],
            ),
            !(1 <= self.counts@.len() <= self.states@.len()) ==> r is None,
    {
        let k = self.counts.len();
        if k >= 1 && k <= self.states.len() {
            Some(&self.states[k - 1])
        } else {
            None
        }
    }

    /// The node after the current one.
    pub fn get_next_state(&self) -> (r: Option<&State>)
        ensures
            self.counts@.len() < self.states@.len() ==> r == Some(&self.states@[self.counts@.len() as int]),
            self.counts@.len() >= self.states@.len() ==> r is None,
    {
        let k = self.counts.len();
        if k < self.states.len() {
            Some(&self.states[k])
        } else {
            None
        }
    }

    fn cache_generate(&self) -> (r: Cache)
        ensures
            r.counts@ == self.counts@,
            r.cur_pos == self.cur_char_pos,
            rules_of(r.states@) == self.model(),
    {
        Cache::new(self.counts.clone(), self.cur_char_pos, copy_states(&self.states))
    }

    fn cache_consume(&mut self, cache: Cache)
        ensures
            final(self).counts == cache.counts,
            final(self).cur_char_pos == cache.cur_pos,
            final(self).states == cache.states,
            final(self).input_string == old(self).input_string,
            final(self).matched == old(self).matched,
    {
        let (counts, cur_pos, states) = cache.extract();
        self.counts = counts;
        self.cur_char_pos = cur_pos;
        self.states = states;
    }

    fn cache_consume_non_dropping(&mut self, cache: &Cache)
        ensures
            final(self).counts@ == cache.counts@,
            final(self).cur_char_pos == cache.cur_pos,
            final(self).model() == rules_of(cache.states@),
            final(self).input_string == old(self).input_string,
            final(self).matched == old(self).matched,
    {
        let copy = Cache::new(cache.counts.clone(), cache.cur_pos, copy_states(&cache.states));
        self.cache_consume(copy);
    }

    /// Replaces the current node, a group, by `multiplicity` copies of its
    /// children, one after the other.
    fn expand_block_state(&mut self, multiplicity: usize) -> (r: Result<(), &'static str>)
        ensures
            ({
                let k = old(self).counts@.len() as int;
                let n = old(self).model().len() as int;
                &&& r is Ok <==> (1 <= k <= n && old(self).model()[k - 1].group is Some
                    && old(self).model()[k - 1].within(multiplicity as int))
                &&& r is Ok ==> final(self).model() == old(self).model().subrange(0, k - 1) + repeat(
                    old(self).model()[k - 1].members(),
                    multiplicity as nat,
                ) + old(self).model().subrange(k, n)
                &&& r is Err ==> final(self).model() == old(self).model()
                &&& r is Err ==> search_error(r->Err_0)
            }),
            final(self).counts == old(self).counts,
            final(self).cur_char_pos == old(self).cur_char_pos,
            final(self).input_string == old(self).input_string,
            final(self).matched == old(self).matched,
    {
        let k = self.counts.len();
        let n = self.states.len();
        proof {
            lemma_rules_of(self.states@);
        }
        if k == 0 || k > n {
            return Err(NO_CURRENT_STATE_ERROR);
        }
        let idx = k - 1;
        if !self.states[idx].is_block_type() {
            return Err(NOT_A_GROUP_ERROR);
        }
        if !self.states[idx].within_count(multiplicity) {
            return Err(INVALID_MULTIPLICITY_ERROR);
        }
        let repr = match self.states[idx].expand_block_states() {
            Some(v) => v,
            None => {
                return Err(NOT_A_GROUP_ERROR);
            },
        };
        let ghost model = self.model();
        let ghost members = model[idx as int].members();
        proof {
            lemma_rules_of(repr@);
        }
        let mut new_states: Vec<State> = Vec::new();
        let mut j: usize = 0;
        while j < idx
            invariant
                j <= idx < n == self.states@.len(),
                model == rules_of(self.states@),
                model.len() == n,
                forall|i: int| 0 <= i < n ==> #[trigger] model[i] == self.states@[i]@,
                rules_of(new_states@) == model.subrange(0, j as int),
            decreases idx - j,
        {
            let c = self.states[j].clone();
            proof {
                lemma_rules_of_push(new_states@, c);
            }
            new_states.push(c);
            j = j + 1;
            assert(rules_of(new_states@) =~= model.subrange(0, j as int));
        }
        let mut t: usize = 0;
        while t < multiplicity
            invariant
                t <= multiplicity,
                rules_of(repr@) == members,
                members.len() == repr@.len(),
                forall|i: int| 0 <= i < repr@.len() ==> #[trigger] members[i] == repr@[i]@,
                rules_of(new_states@) == model.subrange(0, idx as int) + repeat(members, t as nat),
            decreases multiplicity - t,
        {
            let mut q: usize = 0;
            while q < repr.len()
                invariant
                    q <= repr@.len(),
                    t < multiplicity,
                    rules_of(repr@) == members,
                    members.len() == repr@.len(),
                    forall|i: int| 0 <= i < repr@.len() ==> #[trigger] members[i] == repr@[i]@,
                    rules_of(new_states@) == model.subrange(0, idx as int) + repeat(members, t as nat)
                        + members.subrange(0, q as int),
                decreases repr@.len() - q,
            {
                let c = repr[q].clone();
                proof {
                    lemma_rules_of_push(new_states@, c);
                }
                new_states.push(c);
                q = q + 1;
                assert(rules_of(new_states@) =~= model.subrange(0, idx as int) + repeat(members, t as nat)
                    + members.subrange(0, q as int));
            }
            assert(members.subrange(0, members.len() as int) =~= members);
            assert(repeat(members, (t + 1) as nat) == repeat(members, t as nat) + members);
            assert(model.subrange(0, idx as int) + repeat(members, t as nat) + members =~= model.subrange(
                0,
                idx as int,
            ) + repeat(members, (t + 1) as nat));
            t = t + 1;
        }
        let mut j: usize = k;
        while j < n
            invariant
                k <= j <= n == self.states@.len(),
                idx == k - 1,
                model == rules_of(self.states@),
                model.len() == n,
                forall|i: int| 0 <= i < n ==> #[trigger] model[i] == self.states@[i]@,
                rules_of(new_states@) == model.subrange(0, idx as int) + repeat(members, multiplicity as nat)
                    + model.subrange(k as int, j as int),
            decreases n - j,
        {
            let c = self.states[j].clone();
            proof {
                lemma_rules_of_push(new_states@, c);
            }
            new_states.push(c);
            j = j + 1;
            assert(rules_of(new_states@) =~= model.subrange(0, idx as int) + repeat(members, multiplicity as nat)
                + model.subrange(k as int, j as int));
        }
        self.states = new_states;
        Ok(())
    }

    /// Whether the character under the cursor can go to the current node
    /// without taking its count past `max`.
    fn evaluate_char_with_limits(&self) -> (r: Result<bool, &'static str>)
        ensures
            ({
                let k = self.counts@.len() as int;
                &&& r is Ok <==> (self.cur_char_pos < self.input().len() && 1 <= k <= self.states@.len())
                &&& r is Err ==> r->Err_0 == point_error(self.input(), self.cur_char_pos as int)
                &&& r is Ok ==> (r->Ok_0 == (qualifies(self.model()[k - 1], self.input()[self.cur_char_pos as int])
                    && self.counts@[k - 1] < usize::MAX
                    && self.model()[k - 1].within_upper(self.counts@[k - 1] + 1)))
            }),
    {
        proof {
            lemma_rules_of(self.states@);
        }
        let cur_char = match self.get_cur_char() {
            Some(c) => c,
            None => {
                return Err(CURSOR_OUT_OF_BOUNDS_ERROR);
            },
        };
        let state = match self.get_current_state() {
            Some(st) => st,
            None => {
                return Err(NO_CURRENT_STATE_ERROR);
            },
        };
        if !state.does_char_qualify(cur_char) {
            Ok(false)
        } else {
            let last_count = self.counts[self.counts.len() - 1];
            if last_count == usize::MAX {
                Ok(false)
            } else {
                Ok(state.within_upper_count(last_count + 1))
            }
        }
    }

    /// Whether the node after the current one takes the character under the
    /// cursor as its first.
    fn check_if_qualify_for_next_state(&self) -> (r: bool)
        ensures
            ({
                let k = self.counts@.len() as int;
                r == (k < self.states@.len() && self.cur_char_pos < self.input().len() && qualifies(
                    self.model()[k],
                    self.input()[self.cur_char_pos as int],
                ) && self.model()[k].within(1))
            }),
    {
        proof {
            lemma_rules_of(self.states@);
        }
        match self.get_next_state() {
            None => false,
            Some(next_state) => {
                match self.get_cur_char() {
                    None => false,
                    Some(the_ch) => next_state.does_char_qualify(the_ch) && next_state.within_count(1),
                }
            },
        }
    }

    /// Whether every node was activated and took a count within its bounds.
    fn validate(&self) -> (r: bool)
        ensures
            r == self.accepts(),
    {
        proof {
            lemma_rules_of(self.states@);
        }
        if self.counts.len() != self.states.len() {
            return false;
        }
        let mut i: usize = 0;
        while i < self.counts.len()
            invariant
                self.counts@.len() == self.states@.len(),
                self.model().len() == self.states@.len(),
                forall|j: int| 0 <= j < self.states@.len() ==> #[trigger] self.model()[j] == self.states@[j]@,
                i <= self.counts@.len(),
                forall|j: int| 0 <= j < i ==> #[trigger] self.model()[j].within(self.counts@[j] as int),
            decreases self.counts@.len() - i,
        {
            if !self.states[i].within_count(self.counts[i]) {
                assert(!self.model()[i as int].within(self.counts@[i as int] as int));
                return false;
            }
            i = i + 1;
        }
        true
    }

    /// Readies the engine for a run: one activated node and the cursor on the
    /// first character.
    pub fn init(&mut self) -> (r: Result<(), &'static str>)
        ensures
            r is Ok <==> (old(self).input().len() > 0 && old(self).states@.len() > 0),
            old(self).input().len() == 0 ==> r == Err::<(), &str>(EMPTY_INPUT_ERROR),
            (old(self).input().len() > 0 && old(self).states@.len() == 0) ==> r == Err::<(), &str>(
                NO_RULES_ERROR,
            ),
            r is Ok ==> final(self).counts@ == seq![0usize] && final(self).cur_char_pos == 0,
            r is Err ==> final(self).counts == old(self).counts && final(self).cur_char_pos
                == old(self).cur_char_pos,
            final(self).states == old(self).states,
            final(self).input_string == old(self).input_string,
            final(self).matched == old(self).matched,
    {
        if self.input_string_len() == 0 {
            return Err(EMPTY_INPUT_ERROR);
        }
        if self.states.len() == 0 {
            return Err(NO_RULES_ERROR);
        }
        self.counts.clear();
        self.counts.push(0);
        self.cur_char_pos = 0;
        assert(self.counts@ =~= seq![0usize]);
        Ok(())
    }

    /// The backtracking search from the current frontier and cursor.
    fn execute(&mut self) -> (r: Result<bool, &'static str>)
        requires
            old(self).wf(),
        ensures
            r is Ok && r->Ok_0 ==> final(self).accepts() && final(self).wf() && final(self).cur_char_pos
                == final(self).input().len(),
            ({
                let s = search(old(self).input(), old(self).model(), old(self).counts@, old(self).cur_char_pos as int);
                &&& r is Ok <==> s is Ok
                &&& r is Ok ==> r->Ok_0 == s->Ok_0.0
                &&& r is Ok ==> final(self).model() == s->Ok_0.1
                &&& r is Ok ==> final(self).counts@ == s->Ok_0.2
                &&& r is Ok ==> final(self).cur_char_pos == s->Ok_0.3
                &&& r is Err ==> r->Err_0 == s->Err_0
            }),
            final(self).wf(),
            final(self).input_string == old(self).input_string,
            final(self).matched == old(self).matched,
        decreases self.input().len() - self.cur_char_pos, self.rank(),
    {
        let ghost start_pos = self.cur_char_pos;
        let ghost start_rank = self.rank();
        let ghost outcome = search(self.input(), self.model(), self.counts@, self.cur_char_pos as int);
        let ghost len = self.input().len();
        let n = self.input_string_len();
        while !self.is_finished()
            invariant
                self.wf(),
                self.input_string == old(self).input_string,
                self.matched == old(self).matched,
                len == self.input().len(),
                n == len,
                start_pos == old(self).cur_char_pos,
                start_rank == old(self).rank(),
                len == old(self).input().len(),
                start_pos < self.cur_char_pos || (start_pos == self.cur_char_pos && self.rank() <= start_rank),
                outcome == search(old(self).input(), old(self).model(), old(self).counts@, old(self).cur_char_pos as int),
                outcome == search(self.input(), self.model(), self.counts@, self.cur_char_pos as int),
            decreases len - self.cur_char_pos, self.rank(),
        {
            proof {
                lemma_rules_of(self.states@);
            }
            let can_qualify_now = match self.evaluate_char_with_limits() {
                Ok(b) => b,
                Err(e) => {
                    assert(takes_now(self.input(), self.model(), self.counts@, self.cur_char_pos as int) is None);
                    assert(outcome == Err::<SearchEnd, &str>(point_error(self.input(), self.cur_char_pos as int)));
                    return Err(e);
                },
            };
            let can_qualify_next_state = self.check_if_qualify_for_next_state();
            let can_skip_next = match self.get_next_state() {
                None => false,
                Some(st) => st.allows_skip(),
            };
            let k = self.counts.len();

            // A group that takes the character is tried with each number of
            // repetitions in turn, each on a fresh copy of the state.
            if can_qualify_now && self.states[k - 1].is_block_type() {
                let cache = self.cache_generate();
                let ghost snap_rank = self.rank();
                let ghost snap_pos = self.cur_char_pos;
                let ghost snap_model = self.model();
                let ghost snap_counts = self.counts@;
                let min = self.states[k - 1].get_min();
                let max = self.states[k - 1].get_max();
                proof {
                    lemma_qualifying_group_nonempty(
                        self.model()[k - 1],
                        self.input()[self.cur_char_pos as int],
                    );
                }
                assert(self.states@[k - 1]@ == self.model()[k - 1]);
                assert(self.model()[k - 1].members().len() > 0);
                let bs = self.states[k - 1].block_size();
                let size = match bs {
                    Some(sz) => sz,
                    None => 1,
                };
                assert(size >= 1);
                let remaining = n - self.cur_char_pos;
                let fit = remaining / size;
                assert(fit <= remaining) by (nonlinear_arith)
                    requires
                        size >= 1,
                        fit == remaining / size,
                ;
                let upper = match max {
                    Some(mx) => if mx < fit {
                        mx
                    } else {
                        fit
                    },
                    None => fit,
                };
                proof {
                    assert(upper == repeat_limit(self.input(), snap_model[k - 1], snap_pos as int));
                    assert(outcome == if min <= upper {
                        tries(self.input(), snap_model, snap_counts, snap_pos as int, min as int)
                    } else {
                        Ok((false, snap_model, snap_counts, snap_pos as int))
                    });
                }
                if min <= upper {
                    let mut m = min;
                    loop
                        invariant
                            min <= m <= upper,
                            upper <= fit <= len,
                            snap_model[k - 1].min == min,
                            snap_model[k - 1].max == max,
                            max is Some ==> upper <= max->Some_0,
                            snap_model[k - 1].group is Some,
                            1 <= k <= snap_model.len(),
                            snap_counts.len() == k,
                            cache.counts@ == snap_counts,
                            cache.cur_pos == snap_pos,
                            rules_of(cache.states@) == snap_model,
                            snap_rank == weights(snap_model.subrange(k - 1, snap_model.len() as int), len),
                            snap_pos <= len,
                            total(snap_counts) == snap_pos,
                            start_pos < snap_pos || (start_pos == snap_pos && snap_rank <= start_rank),
                            self.input_string == old(self).input_string,
                            self.matched == old(self).matched,
                            len == self.input().len(),
                            start_pos == old(self).cur_char_pos,
                            start_rank == old(self).rank(),
                            len == old(self).input().len(),
                            upper == repeat_limit(self.input(), snap_model[k - 1], snap_pos as int),
                            snap_model[k - 1].members().len() > 0,
                            outcome == search(old(self).input(), old(self).model(), old(self).counts@, old(self).cur_char_pos as int),
                            outcome == tries(self.input(), snap_model, snap_counts, snap_pos as int, m as int),
                        ensures
                            outcome is Ok && !outcome->Ok_0.0,
                            self.model() == outcome->Ok_0.1,
                            self.counts@ == outcome->Ok_0.2,
                            self.cur_char_pos == outcome->Ok_0.3,
                            self.wf(),
                            self.input_string == old(self).input_string,
                            self.matched == old(self).matched,
                        decreases upper - m,
                    {
                        self.cache_consume_non_dropping(&cache);
                        match self.expand_block_state(m) {
                            Ok(()) => {},
                            Err(e) => {
                                return Err(e);
                            },
                        }
                        proof {
                            lemma_expand_rank(snap_model, k as int, m as nat, len);
                            lemma_rules_of(self.states@);
                        }
                        let result = match self.execute() {
                            Ok(b) => b,
                            Err(e) => {
                                return Err(e);
                            },
                        };
                        if result {
                            return Ok(true);
                        }
                        if m == upper {
                            break ;
                        }
                        m = m + 1;
                    }
                }
                return Ok(false);
            }
            // The current node is done with; the next one is activated and
            // works on the same character (a group is expanded there).

            if !can_qualify_now && can_qualify_next_state {
                proof {
                    lemma_advance_rank(self.model(), k as int, len);
                    lemma_total_push(self.counts@, 0);
                }
                self.advance_state();
                continue ;
            }
            // Neither takes it: skip the next node if it is optional.

            if !can_qualify_now && !can_qualify_next_state {
                if !can_skip_next {
                    return Ok(false);
                }
                proof {
                    lemma_advance_rank(self.model(), k as int, len);
                    lemma_total_push(self.counts@, 0);
                }
                self.advance_state();
                let ghost once = self.counts@;
                if !self.advance_state() {
                    return Ok(false);
                }
                proof {
                    lemma_advance_rank(self.model(), k + 1, len);
                    lemma_total_push(once, 0);
                }
                continue ;
            }
            // Only the current node takes it.

            if can_qualify_now && !can_qualify_next_state {
                proof {
                    lemma_total_bump(self.counts@, (self.counts@.last() + 1) as usize);
                }
                match self.add_current_count() {
                    Ok(()) => {},
                    Err(e) => {
                        return Err(e);
                    },
                }
                if !self.advance() {
                    self.finish();
                }
                continue ;
            }
            // Both take it: try the next node first, and fall back to the current one.

            let cache = self.cache_generate();
            proof {
                lemma_advance_rank(self.model(), k as int, len);
                lemma_total_push(self.counts@, 0);
            }
            self.advance_state();
            let result = match self.execute() {
                Ok(b) => b,
                Err(e) => {
                    return Err(e);
                },
            };
            if result {
                return Ok(true);
            }
            self.cache_consume(cache);
            proof {
                lemma_rules_of(self.states@);
                lemma_total_bump(self.counts@, (self.counts@.last() + 1) as usize);
            }
            match self.add_current_count() {
                Ok(()) => {},
                Err(e) => {
                    return Err(e);
                },
            }
            if !self.advance() {
                self.finish();
            }
        }
        proof {
            lemma_rules_of(self.states@);
        }
        Ok(self.validate())
    }

    /// Runs the search from the start of the input: whether the whole input
    /// is accepted, or why the run could not start.
    pub fn process(&mut self) -> (r: Result<bool, &'static str>)
        ensures
            old(self).input().len() == 0 ==> r == Err::<bool, &str>(EMPTY_INPUT_ERROR),
            (old(self).input().len() > 0 && old(self).states@.len() == 0) ==> r == Err::<bool, &str>(
                NO_RULES_ERROR,
            ),
            (old(self).input().len() == 0 || old(self).states@.len() == 0) ==> final(self).counts
                == old(self).counts,
            (old(self).input().len() == 0 || old(self).states@.len() == 0) ==> final(self).cur_char_pos
                == old(self).cur_char_pos,
            (old(self).input().len() == 0 || old(self).states@.len() == 0) ==> final(self).states
                == old(self).states,
            (old(self).input().len() > 0 && old(self).states@.len() > 0) ==> ({
                let s = search(old(self).input(), old(self).model(), seq![0usize], 0);
                &&& r is Ok <==> s is Ok
                &&& r is Ok ==> r->Ok_0 == s->Ok_0.0
                &&& r is Ok ==> final(self).model() == s->Ok_0.1
                &&& r is Ok ==> final(self).counts@ == s->Ok_0.2
                &&& r is Ok ==> final(self).cur_char_pos == s->Ok_0.3
                &&& r is Err ==> r->Err_0 == s->Err_0
            }),
            r is Ok && r->Ok_0 ==> final(self).accepts(),
            r is Ok && r->Ok_0 ==> total(final(self).counts@) == final(self).input().len(),
            final(self).matched == (r is Ok && r->Ok_0),
            final(self).input_string == old(self).input_string,
    {
        self.matched = false;
        match self.init() {
            Ok(()) => {},
            Err(e) => {
                return Err(e);
            },
        }
        assert(total(self.counts@) == 0) by {
            assert(self.counts@.drop_last() =~= Seq::<usize>::empty());
            assert(total(Seq::<usize>::empty()) == 0);
        }
        let r = self.execute();
        self.matched = match r {
            Ok(b) => b,
            Err(_) => false,
        };
        r
    }

    /// After an accepted run, each tagged leaf among the top-level nodes with
    /// the characters it took; `None` before that.
    pub fn extract_results(&self) -> (r: Option<Vec<(State, String)>>)
        ensures
            r is Some <==> (self.matched && self.counts@.len() == self.states@.len() && total(self.counts@)
                == self.input().len()),
            r is Some ==> pairs_view(r->Some_0@) == self.picked(self.states@.len() as int),
    {
        if !self.matched || self.counts.len() != self.states.len() {
            return None;
        }
        proof {
            lemma_total_nonneg(self.counts@);
            lemma_rules_of(self.states@);
            assert(self.counts@.subrange(0, 0) =~= Seq::<usize>::empty());
        }
        let n = self.input_string_len();
        let mut out: Vec<(State, String)> = Vec::new();
        let mut start: usize = 0;
        let mut i: usize = 0;
        while i < self.states.len()
            invariant
                self.counts@.len() == self.states@.len(),
                self.model().len() == self.states@.len(),
                forall|j: int| 0 <= j < self.states@.len() ==> #[trigger] self.model()[j] == self.states@[j]@,
                n == self.input().len(),
                i <= self.states@.len(),
                start == self.span_start(i as int),
                start <= n,
                pairs_view(out@) == self.picked(i as int),
            decreases self.states@.len() - i,
        {
            let c = self.counts[i];
            proof {
                let s = self.counts@.subrange(0, i + 1);
                assert(s.drop_last() =~= self.counts@.subrange(0, i as int));
                lemma_total_prefix_le(self.counts@, i + 1, self.counts@.len() as int);
                assert(self.counts@.subrange(0, self.counts@.len() as int) =~= self.counts@);
            }
            if c > n - start {
                return None;
            }
            let end = start + c;
            let st = &self.states[i];
            if st.block.is_none() && st.identifier != 0 {
                let text = String::from_str(self.input_string.as_str().substring_char(start, end));
                let pair = (st.clone(), text);
                out.push(pair);
                assert(pairs_view(out@) =~= self.picked(i as int).push(
                    (self.model()[i as int], self.span(i as int)),
                ));
            }
            start = end;
            i = i + 1;
        }
        proof {
            assert(self.counts@.subrange(0, self.counts@.len() as int) =~= self.counts@);
        }
        if start != n {
            return None;
        }
        Some(out)
    }
}

/// The spans of the first `n` nodes, laid end to end, are the input up to
/// where the `n`-th span starts.
proof fn lemma_spans_prefix(e: &Engine, n: int)
    requires
        0 <= n <= e.counts@.len(),
        total(e.counts@) == e.input().len(),
    ensures
        e.spans(n) == e.input().subrange(0, e.span_start(n)),
    decreases n,
{
    if n == 0 {
        assert(e.counts@.subrange(0, 0) =~= Seq::<usize>::empty());
        assert(e.input().subrange(0, 0) =~= Seq::<char>::empty());
    } else {
        lemma_spans_prefix(e, n - 1);
        let s = e.counts@.subrange(0, n);
        assert(s.drop_last() =~= e.counts@.subrange(0, n - 1));
        assert(total(s) == total(e.counts@.subrange(0, n - 1)) + e.counts@[n - 1]);
        lemma_total_nonneg(e.counts@.subrange(0, n - 1));
        lemma_total_prefix_le(e.counts@, n - 1, n);
        lemma_total_prefix_le(e.counts@, n, e.counts@.len() as int);
        lemma_total_nonneg(e.counts@.subrange(0, n - 1));
        assert(e.counts@.subrange(0, e.counts@.len() as int) =~= e.counts@);
        assert(e.span_start(n - 1) <= e.span_start(n));
        assert(e.input().subrange(0, e.span_start(n - 1)) + e.input().subrange(
            e.span_start(n - 1),
            e.span_start(n),
        ) =~= e.input().subrange(0, e.span_start(n)));
    }
}

/// After an accepted run, the characters that the top-level nodes took, in
/// order and untagged nodes included, make up the input exactly.
pub proof fn lemma_spans_rebuild_input(e: &Engine)
    requires
        e.accepts(),
        total(e.counts@) == e.input().len(),
    ensures
        e.spans(e.counts@.len() as int) == e.input(),
{
    lemma_spans_prefix(e, e.counts@.len() as int);
    assert(e.counts@.subrange(0, e.counts@.len() as int) =~= e.counts@);
    assert(e.input().subrange(0, e.input().len() as int) =~= e.input());
}

} // verus!
