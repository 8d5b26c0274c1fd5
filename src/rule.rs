use vstd::prelude::*;

verus! {

/// One character class: a leaf matches a character when any of its classes does.
#[derive(Clone, Copy, Debug, PartialEq, Eq, Structural)]
pub enum PatternType {
    Alphabetic,
    Numeric,
    Everything,
    Specific(char),
}

/// Whether a character has Unicode's Alphabetic property.
pub uninterp spec fn alphabetic_char(c: char) -> bool;

/// Relies on `char::is_alphabetic`: whether the character has the Alphabetic
/// property, which depends on the character alone.
#[verifier::external_body]
fn char_is_alphabetic(c: char) -> (r: bool)
    ensures
        r == alphabetic_char(c),
{
    c.is_alphabetic()
}

/// A decimal digit, as `char::is_digit(10)` accepts it.
pub open spec fn decimal_digit(c: char) -> bool {
    '0' <= c && c <= '9'
}

impl PatternType {
    /// Whether the class holds the character.
    pub open spec fn matches(self, c: char) -> bool {
        match self {
            PatternType::Alphabetic => alphabetic_char(c),
            PatternType::Numeric => decimal_digit(c),
            PatternType::Everything => true,
            PatternType::Specific(x) => c == x,
        }
    }

    pub fn is_of_type(&self, character: char) -> (r: bool)
        ensures
            r == self.matches(character),
    {
        match self {
            PatternType::Alphabetic => char_is_alphabetic(character),
            PatternType::Numeric => '0' <= character && character <= '9',
            PatternType::Everything => true,
            PatternType::Specific(c) => character == *c,
        }
    }
}

/// What a node of a grammar is, as a mathematical value.
pub struct Rule {
    pub identifier: usize,
    pub min: usize,
    pub max: Option<usize>,
    pub patterns: Seq<PatternType>,
    pub group: Option<Seq<Rule>>,
    pub coalesce: bool,
}

impl Rule {
    /// Whether some class of a leaf holds the character.
    pub open spec fn leaf_matches(self, c: char) -> bool {
        exists|i: int| 0 <= i < self.patterns.len() && (#[trigger] self.patterns[i]).matches(c)
    }

    /// The children of a group; empty for a leaf.
    pub open spec fn members(self) -> Seq<Rule> {
        match self.group {
            Some(g) => g,
            None => Seq::empty(),
        }
    }

    /// Whether `n` occurrences lie in `[min, max]`.
    pub open spec fn within(self, n: int) -> bool {
        n >= self.min && match self.max {
            Some(m) => n <= m,
            None => true,
        }
    }

    /// Whether `n` occurrences stay under `max`.
    pub open spec fn within_upper(self, n: int) -> bool {
        match self.max {
            Some(m) => n <= m,
            None => true,
        }
    }
}

/// The peek of a node on one character: a leaf checks its classes; a group
/// looks at its children in order, deciding at the first mandatory child or
/// at the first optional child that takes the character.
pub open spec fn qualifies(r: Rule, c: char) -> bool
    decreases r, 1nat,
{
    match r.group {
        Some(g) => peek(g, c),
        None => r.leaf_matches(c),
    }
}

/// The peek of a group over the sequence of its remaining children.
pub open spec fn peek(g: Seq<Rule>, c: char) -> bool
    decreases g, 0nat,
{
    if g.len() == 0 {
        false
    } else if g[0].min != 0 {
        qualifies(g[0], c)
    } else if qualifies(g[0], c) {
        true
    } else {
        peek(g.subrange(1, g.len() as int), c)
    }
}

/// A quantified node of a grammar: a leaf over character classes, or a group
/// of child nodes that repeats as a unit.
#[derive(Debug)]
pub struct State {
    pub identifier: usize,
    pub min: usize,
    pub max: Option<usize>,
    pub patterns: Vec<PatternType>,
    pub block: Option<Vec<State>>,
    pub coalesce: bool,
}

/// The values of a sequence of nodes.
pub open spec fn rules_of(v: Seq<State>) -> Seq<Rule>
    decreases v, 0nat,
{
    if v.len() == 0 {
        Seq::empty()
    } else {
        seq![rule_of(v[0])] + rules_of(v.subrange(1, v.len() as int))
    }
}

/// The value of one node.
pub open spec fn rule_of(s: State) -> Rule
    decreases s, 1nat,
{
    Rule {
        identifier: s.identifier,
        min: s.min,
        max: s.max,
        patterns: s.patterns@,
        group: match s.block {
            Some(b) => Some(rules_of(b@)),
            None => None,
        },
        coalesce: s.coalesce,
    }
}

impl View for State {
    type V = Rule;

    open spec fn view(&self) -> Rule {
        rule_of(*self)
    }
}

/// The values of a sequence of nodes are taken one by one.
pub proof fn lemma_rules_of(v: Seq<State>)
    ensures
        rules_of(v).len() == v.len(),
        forall|i: int| 0 <= i < v.len() ==> #[trigger] rules_of(v)[i] == rule_of(v[i]),
    decreases v.len(),
{
    if v.len() > 0 {
        let rest = v.subrange(1, v.len() as int);
        lemma_rules_of(rest);
        assert forall|i: int| 0 <= i < v.len() implies #[trigger] rules_of(v)[i] == rule_of(v[i]) by {
            if i > 0 {
                assert(rules_of(v)[i] == rules_of(rest)[i - 1]);
                assert(rest[i - 1] == v[i]);
            }
        }
    }
}

/// Two sequences of nodes with the same values one by one have the same values.
pub proof fn lemma_rules_of_equal(a: Seq<State>, b: Seq<State>)
    requires
        a.len() == b.len(),
        forall|i: int| 0 <= i < a.len() ==> #[trigger] rule_of(a[i]) == rule_of(b[i]),
    ensures
        rules_of(a) == rules_of(b),
{
    lemma_rules_of(a);
    lemma_rules_of(b);
    assert(rules_of(a) =~= rules_of(b));
}

/// A copy of a sequence of nodes, one clone each.
pub fn copy_states(v: &Vec<State>) -> (r: Vec<State>)
    ensures
        r@.len() == v@.len(),
        forall|i: int| 0 <= i < v@.len() ==> (#[trigger] r@[i])@ == v@[i]@,
        rules_of(r@) == rules_of(v@),
{
    let mut copies: Vec<State> = Vec::new();
    let mut i: usize = 0;
    while i < v.len()
        invariant
            i <= v@.len(),
            copies@.len() == i,
            forall|k: int| 0 <= k < i ==> (#[trigger] copies@[k])@ == v@[k]@,
        decreases v@.len() - i,
    {
        copies.push(v[i].clone());
        i = i + 1;
    }
    proof {
        lemma_rules_of_equal(copies@, v@);
    }
    copies
}

impl Clone for State {
    /// A deep copy: the copy has the same value.
    fn clone(&self) -> (r: Self)
        ensures
            r@ == self@,
        decreases self,
    {
        let block = match &self.block {
            None => None,
            Some(b) => {
                let mut copies: Vec<State> = Vec::new();
                let mut i: usize = 0;
                while i < b.len()
                    invariant
                        i <= b@.len(),
                        copies@.len() == i,
                        forall|k: int| 0 <= k < i ==> (#[trigger] copies@[k])@ == b@[k]@,
                        self.block == Some(*b),
                    decreases b@.len() - i,
                {
                    proof {
                        assert(decreases_to!(*b => b[i as int]));
                        assert(decreases_to!(*self => self.block->Some_0));
                        assert(decreases_to!(*self => b[i as int]));
                    }
                    copies.push(b[i].clone());
                    i = i + 1;
                }
                proof {
                    lemma_rules_of_equal(copies@, b@);
                }
                Some(copies)
            },
        };
        let mut patterns: Vec<PatternType> = Vec::new();
        let mut j: usize = 0;
        while j < self.patterns.len()
            invariant
                j <= self.patterns@.len(),
                patterns@ == self.patterns@.subrange(0, j as int),
            decreases self.patterns@.len() - j,
        {
            patterns.push(self.patterns[j]);
            j = j + 1;
            assert(patterns@ =~= self.patterns@.subrange(0, j as int));
        }
        assert(patterns@ =~= self.patterns@);
        State {
            identifier: self.identifier,
            min: self.min,
            max: self.max,
            patterns,
            block,
            coalesce: self.coalesce,
        }
    }
}

impl State {
    /// Creates a leaf. This cannot create a group.
    pub fn new(min: usize, max: Option<usize>, patterns: Vec<PatternType>) -> (r: Self)
        ensures
            r@ == (Rule {
                identifier: 0,
                min,
                max,
                patterns: patterns@,
                group: None,
                coalesce: false,
            }),
    {
        State { identifier: 0, min, max, patterns, block: None, coalesce: false }
    }

    /// Creates a sequential group over the given children.
    pub fn new_block(min: usize, max: Option<usize>, states: Vec<State>) -> (r: Self)
        ensures
            r@ == (Rule {
                identifier: 0,
                min,
                max,
                patterns: Seq::empty(),
                group: Some(rules_of(states@)),
                coalesce: false,
            }),
    {
        let r = State {
            identifier: 0,
            min,
            max,
            patterns: Vec::new(),
            block: Some(states),
            coalesce: false,
        };
        assert(r@.patterns =~= Seq::<PatternType>::empty());
        r
    }

    /// Creates an alternation group over the given children.
    pub fn new_coalesce_block(min: usize, max: Option<usize>, states: Vec<State>) -> (r: Self)
        ensures
            r@ == (Rule {
                identifier: 0,
                min,
                max,
                patterns: Seq::empty(),
                group: Some(rules_of(states@)),
                coalesce: true,
            }),
    {
        let mut output = Self::new_block(min, max, states);
        output.coalesce = true;
        output
    }

    /// A sequential group with the bounds of this group and its `n`-th child
    /// as its only child.
    pub fn nth_coalesce_option(&self, n: usize) -> (r: Result<State, &'static str>)
        ensures
            self@.group is None ==> r is Err,
            self@.group is Some ==> (r is Ok <==> n < self@.members().len()),
            r is Ok ==> r->Ok_0@ == (Rule {
                identifier: 0,
                min: self@.min,
                max: self@.max,
                patterns: Seq::empty(),
                group: Some(seq![self@.members()[n as int]]),
                coalesce: false,
            }),
    {
        match &self.block {
            None => Err("Not a valid block type state."),
            Some(b) => {
                proof {
                    lemma_rules_of(b@);
                    assert(self@.members() == rules_of(b@));
                }
                if n >= b.len() {
                    Err("Invalid indices.")
                } else {
                    let only_state = b[n].clone();
                    let ghost only = only_state;
                    let v = vec![only_state];
                    assert(v@ =~= seq![only]);
                    let r = Self::new_block(self.min, self.max, v);
                    proof {
                        lemma_rules_of(b@);
                        lemma_rules_of(seq![only]);
                        assert(rules_of(seq![only]) =~= seq![self@.members()[n as int]]);
                    }
                    Ok(r)
                }
            },
        }
    }

    /// Tags the node, for picking out what it matched afterwards.
    pub fn set_identifier(self, new_value: usize) -> (r: Self)
        ensures
            r@ == (Rule { identifier: new_value, ..self@ }),
    {
        let mut tagged = self;
        tagged.identifier = new_value;
        tagged
    }

    pub fn is_block_type(&self) -> (r: bool)
        ensures
            r == self@.group is Some,
    {
        self.block.is_some()
    }

    pub fn is_coalesce(&self) -> (r: bool)
        ensures
            r == self@.coalesce,
    {
        self.coalesce
    }

    pub fn get_max(&self) -> (r: Option<usize>)
        ensures
            r == self@.max,
    {
        self.max
    }

    pub fn get_min(&self) -> (r: usize)
        ensures
            r == self@.min,
    {
        self.min
    }

    /// Number of children of a group; `None` for a leaf.
    pub fn block_size(&self) -> (r: Option<usize>)
        ensures
            self@.group is None ==> r is None,
            self@.group is Some ==> r is Some && r->Some_0 == self@.members().len(),
    {
        proof {
            if self.block is Some {
                lemma_rules_of(self.block->Some_0@);
            }
        }
        match self.get_block_states() {
            Some(b) => Some(b.len()),
            None => None,
        }
    }

    fn get_block_states(&self) -> (r: Option<&Vec<State>>)
        ensures
            r is None <==> self.block is None,
            r is Some ==> self.block == Some(*r->Some_0),
    {
        match &self.block {
            Some(b) => Some(b),
            None => None,
        }
    }

    /// A copy of the children of a group; `None` for a leaf.
    pub fn expand_block_states(&self) -> (r: Option<Vec<State>>)
        ensures
            self@.group is None ==> r is None,
            self@.group is Some ==> r is Some && rules_of(r->Some_0@) == self@.members(),
    {
        match self.get_block_states() {
            Some(b) => Some(copy_states(b)),
            None => None,
        }
    }

    /// The peek of this node on a character (see `qualifies`).
    pub fn does_char_qualify(&self, character: char) -> (r: bool)
        ensures
            r == qualifies(self@, character),
        decreases self,
    {
        match &self.block {
            Some(b) => {
                let ghost g = rules_of(b@);
                proof {
                    lemma_rules_of(b@);
                    assert(g.subrange(0, g.len() as int) =~= g);
                    assert(self@.group == Some(g));
                }
                let mut i: usize = 0;
                while i < b.len()
                    invariant
                        self.block == Some(*b),
                        g == rules_of(b@),
                        g.len() == b@.len(),
                        forall|k: int| 0 <= k < b@.len() ==> #[trigger] g[k] == b@[k]@,
                        i <= b@.len(),
                        peek(g, character) == peek(g.subrange(i as int, g.len() as int), character),
                    decreases b@.len() - i,
                {
                    proof {
                        assert(decreases_to!(*b => b[i as int]));
                        assert(decreases_to!(*self => self.block->Some_0));
                        assert(decreases_to!(*self => b[i as int]));
                        let rest = g.subrange(i as int, g.len() as int);
                        assert(rest[0] == b@[i as int]@);
                        assert(rest.subrange(1, rest.len() as int) =~= g.subrange(i + 1, g.len() as int));
                    }
                    let state = &b[i];
                    let check_result = state.does_char_qualify(character);
                    if !state.allows_skip() {
                        return check_result;
                    }
                    if check_result {
                        return true;
                    }
                    i = i + 1;
                }
                false
            },
            None => {
                let mut j: usize = 0;
                while j < self.patterns.len()
                    invariant
                        self.block is None,
                        j <= self.patterns@.len(),
                        forall|k: int| 0 <= k < j ==> !(#[trigger] self.patterns@[k]).matches(character),
                    decreases self.patterns@.len() - j,
                {
                    if self.patterns[j].is_of_type(character) {
                        assert(self@.patterns[j as int].matches(character));
                        return true;
                    }
                    j = j + 1;
                }
                false
            },
        }
    }

    /// Whether `count` lies in `[min, max]`, or is at least `min` when there is no `max`.
    pub fn within_count(&self, count: usize) -> (r: bool)
        ensures
            r == self@.within(count as int),
            self@.max is None ==> (r == (count >= self@.min)),
            self@.max is Some ==> (r == (self@.min <= count && count <= self@.max->Some_0)),
    {
        match self.max {
            None => count >= self.min,
            Some(max) => count >= self.min && count <= max,
        }
    }

    /// Whether `count` stays under `max`, if there is one.
    pub fn within_upper_count(&self, count: usize) -> (r: bool)
        ensures
            r == self@.within_upper(count as int),
    {
        match self.max {
            None => true,
            Some(max_num) => count <= max_num,
        }
    }

    /// Whether the node may occur zero times.
    pub fn allows_skip(&self) -> (r: bool)
        ensures
            r == (self@.min == 0),
    {
        self.min == 0
    }
}

} // verus!
