use vstd::prelude::*;
use crate::phones::{Phone, SpecPhone, phone_eq, phones_view, spec_is_bound, spec_phones_match};
use crate::rules::{
    Cond, RuleToken, SoundChangeRule, SpecCond, SpecRule, cond_view, conds_view, rule_view, SpecRuleToken, lemma_options_view_index, lemma_options_view_len, lemma_tokens_view_index,
    lemma_tokens_view_len, options_view, tokens_view,
};
use crate::strings::str_eq;
use crate::tokens::{AndType, CondType, Direction, ScopeId, SpecScopeId, scope_id_eq};

verus! {

// ---------------------------------------------------------------------------
// Reading phones

/// A directional reader over a list of phones
///
/// Reads the phone at `index` first, then moves in its direction;
/// whatever lies outside the list reads as a word boundary
#[derive(Debug, Clone, Copy)]
pub struct Phones<'p, 's> {
    phone_list: &'p [Phone<'s>],
    index: Option<usize>,
    direction: Direction,
}

/// The mathematical value of a phone reader
pub struct SpecPhones {
    pub phones: Seq<SpecPhone>,
    pub index: Option<int>,
    pub dir: Direction,
}

impl<'p, 's> View for Phones<'p, 's> {
    type V = SpecPhones;

    closed spec fn view(&self) -> SpecPhones {
        SpecPhones {
            phones: phones_view(self.phone_list@),
            index: match self.index {
                Some(i) => Some(i as int),
                None => None,
            },
            dir: self.direction,
        }
    }
}

/// The phone at position `i` of a list, or a boundary outside the list
pub open spec fn phone_at(ps: Seq<SpecPhone>, i: int) -> SpecPhone {
    if 0 <= i < ps.len() {
        ps[i]
    } else {
        SpecPhone::Bound
    }
}

/// The `k`th phone a reader reads (counted from 0)
pub open spec fn spec_read(r: SpecPhones, k: int) -> SpecPhone {
    match r.index {
        None => SpecPhone::Bound,
        Some(s) => match r.dir {
            Direction::Ltr => phone_at(r.phones, s + k),
            Direction::Rtl => phone_at(r.phones, s - k),
        },
    }
}

/// A reader that starts at `index`, or that reads only boundaries when `index`
/// lies beyond the end of the list
pub open spec fn spec_new_phones(phones: Seq<SpecPhone>, index: int, dir: Direction) -> SpecPhones {
    SpecPhones { phones, index: if index <= phones.len() { Some(index) } else { None }, dir }
}

impl<'p, 's> Phones<'p, 's> {
    /// Creates a reader whose first phone is the phone at `index`
    pub fn new(phones: &'p [Phone<'s>], index: usize, direction: Direction) -> (r: Self)
        ensures
            r@ == spec_new_phones(phones_view(phones@), index as int, direction),
    {
        Phones { phone_list: phones, index: if index <= phones.len() { Some(index) } else { None }, direction }
    }

    /// The `k`th phone this reader reads
    pub fn get(&self, k: usize) -> (r: Phone<'s>)
        ensures
            r@ == spec_read(self@, k as int),
    {
        match self.index {
            None => Phone::Bound,
            Some(s) => {
                let len = self.phone_list.len();
                match self.direction {
                    Direction::Ltr => if s < len && k < len - s {
                        self.phone_list[s + k]
                    } else {
                        Phone::Bound
                    },
                    Direction::Rtl => if k <= s && s - k < len {
                        self.phone_list[s - k]
                    } else {
                        Phone::Bound
                    },
                }
            },
        }
    }

    /// Gets the next phone and moves past it
    pub fn next(&mut self) -> (r: Phone<'s>)
        ensures
            r@ == spec_read(old(self)@, 0),
            final(self)@.phones == old(self)@.phones,
            final(self)@.dir == old(self)@.dir,
            forall|k: int| k >= 0 ==> spec_read(#[trigger] final(self)@, k) == spec_read(old(self)@, k + 1),
    {
        let r = self.get(0);
        match self.index {
            None => {},
            Some(s) => {
                match self.direction {
                    Direction::Ltr => {
                        self.index = if s < self.phone_list.len() { Some(s + 1) } else { None };
                    },
                    Direction::Rtl => {
                        self.index = if s > 0 { Some(s - 1) } else { None };
                    },
                }
            },
        }
        r
    }

    /// Gets the direction
    pub fn direction(&self) -> (r: Direction)
        ensures
            r == self@.dir,
    {
        self.direction
    }

    /// The list the reader reads from
    fn list(&self) -> (r: &'p [Phone<'s>])
        ensures
            phones_view(r@) == self@.phones,
    {
        self.phone_list
    }
}

/// A reader moved on by one call of `next` after another reads, from each state on,
/// what the state before it read one step further on
pub open spec fn reads_in_turn(rs: Seq<SpecPhones>) -> bool {
    forall|j: int, m: int| 0 <= j < rs.len() - 1 && m >= 0 ==> #[trigger] spec_read(rs[j + 1], m) == spec_read(rs[j], m + 1)
}

proof fn lemma_reads_shift(rs: Seq<SpecPhones>, k: int, m: int)
    requires
        reads_in_turn(rs),
        0 <= k < rs.len(),
        m >= 0,
    ensures
        spec_read(rs[k], m) == spec_read(rs[0], m + k),
    decreases k,
{
    if k > 0 {
        assert(spec_read(rs[(k - 1) + 1], m) == spec_read(rs[k - 1], m + 1));
        lemma_reads_shift(rs, k - 1, m + 1);
    }
}

/// Successive calls of `next` on a reader created at index `i` of a list read the phones
/// at `i`, `i + 1`, ... left-to-right or at `i`, `i - 1`, ... right-to-left: the `k`th call
/// (counted from 0) reads the phone `k` steps on, and a word boundary once past either end
pub proof fn lemma_next_reads_in_order(ps: Seq<SpecPhone>, i: int, dir: Direction, rs: Seq<SpecPhones>, k: int)
    requires
        0 <= i < ps.len(),
        rs.len() > 0,
        rs[0] == spec_new_phones(ps, i, dir),
        reads_in_turn(rs),
        0 <= k < rs.len(),
    ensures
        spec_read(rs[k], 0) == match dir {
            Direction::Ltr => phone_at(ps, i + k),
            Direction::Rtl => phone_at(ps, i - k),
        },
{
    lemma_reads_shift(rs, k, 0);
}

// ---------------------------------------------------------------------------
// Choices

/// Choices made while matching, so that scopes and phones with the same label agree
#[derive(Debug)]
pub struct Choices<'s> {
    selection: Vec<(ScopeId<'s>, usize)>,
    optional: Vec<(ScopeId<'s>, bool)>,
    any: Vec<(ScopeId<'s>, Phone<'s>)>,
    repetition: Vec<(&'s str, usize)>,
}

/// The mathematical value of choices: which option each labelled selection took,
/// whether each labelled optional scope was taken, which phone each labelled
/// phone wildcard stands for, and how long each labelled gap was
pub struct SpecChoices {
    pub selection: Seq<(SpecScopeId, usize)>,
    pub optional: Seq<(SpecScopeId, bool)>,
    pub any: Seq<(SpecScopeId, SpecPhone)>,
    pub repetition: Seq<(Seq<char>, usize)>,
}

impl<'s> View for Choices<'s> {
    type V = SpecChoices;

    closed spec fn view(&self) -> SpecChoices {
        SpecChoices {
            selection: self.selection@.map_values(|e: (ScopeId<'s>, usize)| (e.0@, e.1)),
            optional: self.optional@.map_values(|e: (ScopeId<'s>, bool)| (e.0@, e.1)),
            any: self.any@.map_values(|e: (ScopeId<'s>, Phone<'s>)| (e.0@, e.1@)),
            repetition: self.repetition@.map_values(|e: (&'s str, usize)| (e.0@, e.1)),
        }
    }
}

/// The value last recorded for `k`
pub open spec fn assoc<K, V>(s: Seq<(K, V)>, k: K) -> Option<V>
    decreases s.len(),
{
    if s.len() == 0 {
        None
    } else if s.last().0 == k {
        Some(s.last().1)
    } else {
        assoc(s.drop_last(), k)
    }
}

/// No choices at all
pub open spec fn spec_no_choices() -> SpecChoices {
    SpecChoices { selection: Seq::empty(), optional: Seq::empty(), any: Seq::empty(), repetition: Seq::empty() }
}

impl<'s> Choices<'s> {
    /// Creates an empty set of choices
    pub fn new() -> (r: Self)
        ensures
            r@ == spec_no_choices(),
    {
        let r = Choices { selection: Vec::new(), optional: Vec::new(), any: Vec::new(), repetition: Vec::new() };
        assert(r@.selection =~= Seq::<(SpecScopeId, usize)>::empty());
        assert(r@.optional =~= Seq::<(SpecScopeId, bool)>::empty());
        assert(r@.any =~= Seq::<(SpecScopeId, SpecPhone)>::empty());
        assert(r@.repetition =~= Seq::<(Seq<char>, usize)>::empty());
        r
    }

    /// Copies the choices
    pub fn duplicate(&self) -> (r: Self)
        ensures
            r@ == self@,
    {
        let mut selection: Vec<(ScopeId<'s>, usize)> = Vec::new();
        let mut k: usize = 0;
        while k < self.selection.len()
            invariant
                k <= self.selection@.len(),
                selection@.len() == k,
                forall|i: int| 0 <= i < k ==> (#[trigger] selection@[i]).0@ == self.selection@[i].0@ && selection@[i].1 == self.selection@[i].1,
            decreases self.selection@.len() - k,
        {
            let e = &self.selection[k];
            selection.push((e.0.clone(), e.1));
            k += 1;
        }
        let mut optional: Vec<(ScopeId<'s>, bool)> = Vec::new();
        let mut k: usize = 0;
        while k < self.optional.len()
            invariant
                k <= self.optional@.len(),
                optional@.len() == k,
                forall|i: int| 0 <= i < k ==> (#[trigger] optional@[i]).0@ == self.optional@[i].0@ && optional@[i].1 == self.optional@[i].1,
            decreases self.optional@.len() - k,
        {
            let e = &self.optional[k];
            optional.push((e.0.clone(), e.1));
            k += 1;
        }
        let mut any: Vec<(ScopeId<'s>, Phone<'s>)> = Vec::new();
        let mut k: usize = 0;
        while k < self.any.len()
            invariant
                k <= self.any@.len(),
                any@.len() == k,
                forall|i: int| 0 <= i < k ==> (#[trigger] any@[i]).0@ == self.any@[i].0@ && any@[i].1 == self.any@[i].1,
            decreases self.any@.len() - k,
        {
            let e = &self.any[k];
            any.push((e.0.clone(), e.1));
            k += 1;
        }
        let mut repetition: Vec<(&'s str, usize)> = Vec::new();
        let mut k: usize = 0;
        while k < self.repetition.len()
            invariant
                k <= self.repetition@.len(),
                repetition@.len() == k,
                forall|i: int| 0 <= i < k ==> #[trigger] repetition@[i] == self.repetition@[i],
            decreases self.repetition@.len() - k,
        {
            let e = &self.repetition[k];
            repetition.push((e.0, e.1));
            k += 1;
        }
        let r = Choices { selection, optional, any, repetition };
        assert(r@.selection =~= self@.selection);
        assert(r@.optional =~= self@.optional);
        assert(r@.any =~= self@.any);
        assert(r@.repetition =~= self@.repetition);
        r
    }

    /// The option chosen by the selection scope `id`
    pub fn selection(&self, id: &ScopeId<'s>) -> (r: Option<usize>)
        ensures
            r == assoc(self@.selection, id@),
    {
        let ghost v = self@.selection;
        let mut k = self.selection.len();
        assert(v =~= v.subrange(0, k as int));
        while k > 0
            invariant
                k <= self.selection@.len(),
                v == self@.selection,
                assoc(v, id@) == assoc(v.subrange(0, k as int), id@),
            decreases k,
        {
            assert(v.subrange(0, k as int).drop_last() =~= v.subrange(0, k - 1));
            if scope_id_eq(&self.selection[k - 1].0, id) {
                return Some(self.selection[k - 1].1);
            }
            k -= 1;
        }
        None
    }

    /// Whether the optional scope `id` was taken
    pub fn optional(&self, id: &ScopeId<'s>) -> (r: Option<bool>)
        ensures
            r == assoc(self@.optional, id@),
    {
        let ghost v = self@.optional;
        let mut k = self.optional.len();
        assert(v =~= v.subrange(0, k as int));
        while k > 0
            invariant
                k <= self.optional@.len(),
                v == self@.optional,
                assoc(v, id@) == assoc(v.subrange(0, k as int), id@),
            decreases k,
        {
            assert(v.subrange(0, k as int).drop_last() =~= v.subrange(0, k - 1));
            if scope_id_eq(&self.optional[k - 1].0, id) {
                return Some(self.optional[k - 1].1);
            }
            k -= 1;
        }
        None
    }

    /// The phone the wildcard `id` stands for
    pub fn any(&self, id: &ScopeId<'s>) -> (r: Option<Phone<'s>>)
        ensures
            match r {
                Some(p) => assoc(self@.any, id@) == Some(p@),
                None => assoc(self@.any, id@) is None,
            },
    {
        let ghost v = self@.any;
        let mut k = self.any.len();
        assert(v =~= v.subrange(0, k as int));
        while k > 0
            invariant
                k <= self.any@.len(),
                v == self@.any,
                assoc(v, id@) == assoc(v.subrange(0, k as int), id@),
            decreases k,
        {
            assert(v.subrange(0, k as int).drop_last() =~= v.subrange(0, k - 1));
            if scope_id_eq(&self.any[k - 1].0, id) {
                return Some(self.any[k - 1].1);
            }
            k -= 1;
        }
        None
    }

    /// The length of the gap `name`
    pub fn repetition(&self, name: &str) -> (r: Option<usize>)
        ensures
            r == assoc(self@.repetition, name@),
    {
        let ghost v = self@.repetition;
        let mut k = self.repetition.len();
        assert(v =~= v.subrange(0, k as int));
        while k > 0
            invariant
                k <= self.repetition@.len(),
                v == self@.repetition,
                assoc(v, name@) == assoc(v.subrange(0, k as int), name@),
            decreases k,
        {
            assert(v.subrange(0, k as int).drop_last() =~= v.subrange(0, k - 1));
            if str_eq(self.repetition[k - 1].0, name) {
                return Some(self.repetition[k - 1].1);
            }
            k -= 1;
        }
        None
    }

    /// Records the option a selection scope took
    fn choose_selection(&mut self, id: &ScopeId<'s>, choice: usize)
        ensures
            final(self)@ == (SpecChoices { selection: old(self)@.selection.push((id@, choice)), ..old(self)@ }),
    {
        self.selection.push((id.clone(), choice));
        assert(self@.selection =~= old(self)@.selection.push((id@, choice)));
    }

    /// Records whether an optional scope was taken
    fn choose_optional(&mut self, id: &ScopeId<'s>, choice: bool)
        ensures
            final(self)@ == (SpecChoices { optional: old(self)@.optional.push((id@, choice)), ..old(self)@ }),
    {
        self.optional.push((id.clone(), choice));
        assert(self@.optional =~= old(self)@.optional.push((id@, choice)));
    }

    /// Records the phone a wildcard stands for
    fn choose_any(&mut self, id: &ScopeId<'s>, choice: Phone<'s>)
        ensures
            final(self)@ == (SpecChoices { any: old(self)@.any.push((id@, choice@)), ..old(self)@ }),
    {
        self.any.push((id.clone(), choice));
        assert(self@.any =~= old(self)@.any.push((id@, choice@)));
    }

    /// Records the length of a gap
    fn choose_repetition(&mut self, name: &'s str, len: usize)
        ensures
            final(self)@ == (SpecChoices { repetition: old(self)@.repetition.push((name@, len)), ..old(self)@ }),
    {
        self.repetition.push((name, len));
        assert(self@.repetition =~= old(self)@.repetition.push((name@, len)));
    }
}

impl<'s> Default for Choices<'s> {
    /// No choices at all
    fn default() -> (r: Self)
        ensures
            r@ == spec_no_choices(),
    {
        Choices::new()
    }
}

// ---------------------------------------------------------------------------
// Tokens as phones

/// The phones a list of tokens stands for under the given choices, or `None` when
/// a token stands for no fixed phones: a phone is itself; a labelled wildcard is the
/// phone chosen for it; a labelled gap chosen to be empty is nothing; a labelled optional
/// scope is its content when it was taken and nothing when it was not; a labelled
/// selection is the option it took
pub open spec fn spec_as_phones(toks: Seq<SpecRuleToken>, ch: SpecChoices) -> Option<Seq<SpecPhone>>
    decreases toks,
{
    if toks.len() == 0 {
        Some(Seq::empty())
    } else {
        let first: Option<Seq<SpecPhone>> = match toks[0] {
            SpecRuleToken::Phone(p) => Some(seq![p]),
            SpecRuleToken::Any { id: Some(id) } => match assoc(ch.any, id) {
                Some(p) => Some(seq![p]),
                None => None,
            },
            SpecRuleToken::Gap { id: Some(name) } => if assoc(ch.repetition, name) == Some(0usize) {
                Some(Seq::empty())
            } else {
                None
            },
            SpecRuleToken::OptionalScope { id: Some(id), content } => match assoc(ch.optional, id) {
                Some(true) => spec_as_phones(content, ch),
                Some(false) => Some(Seq::empty()),
                None => None,
            },
            SpecRuleToken::SelectionScope { id: Some(id), options } => match assoc(ch.selection, id) {
                Some(j) => if j < options.len() {
                    spec_as_phones(options[j as int], ch)
                } else {
                    None
                },
                None => None,
            },
            _ => None,
        };
        match first {
            None => None,
            Some(ps) => match spec_as_phones(toks.drop_first(), ch) {
                Some(rest) => Some(ps + rest),
                None => None,
            },
        }
    }
}

/// The size of a token: one, plus the sizes of the tokens inside a scope
pub open spec fn tok_size(t: SpecRuleToken) -> nat
    decreases t,
{
    match t {
        SpecRuleToken::OptionalScope { content, .. } => 1 + toks_size(content),
        SpecRuleToken::SelectionScope { options, .. } => 1 + opts_size(options),
        _ => 1,
    }
}

/// The size of a list of tokens
pub open spec fn toks_size(s: Seq<SpecRuleToken>) -> nat
    decreases s,
{
    if s.len() == 0 {
        0
    } else {
        tok_size(s[0]) + toks_size(s.drop_first())
    }
}

/// The size of the options of a selection scope
pub open spec fn opts_size(s: Seq<Seq<SpecRuleToken>>) -> nat
    decreases s,
{
    if s.len() == 0 {
        0
    } else {
        toks_size(s[0]) + opts_size(s.drop_first())
    }
}

/// The size of a list is that of its first part and that of the rest
pub proof fn lemma_toks_size_split(s: Seq<SpecRuleToken>, i: int)
    requires
        0 <= i <= s.len(),
    ensures
        toks_size(s) == toks_size(s.subrange(0, i)) + toks_size(s.subrange(i, s.len() as int)),
    decreases s.len(),
{
    if i == 0 {
        assert(s.subrange(0, 0) =~= Seq::<SpecRuleToken>::empty());
        assert(s.subrange(0, s.len() as int) =~= s);
    } else {
        lemma_toks_size_split(s.drop_first(), i - 1);
        assert(s.subrange(0, i).drop_first() =~= s.drop_first().subrange(0, i - 1));
        assert(s.subrange(i, s.len() as int) =~= s.drop_first().subrange(i - 1, s.drop_first().len() as int));
    }
}

/// Each token is no larger than the list it is in
pub proof fn lemma_toks_size_elem(s: Seq<SpecRuleToken>, i: int)
    requires
        0 <= i < s.len(),
    ensures
        tok_size(s[i]) <= toks_size(s),
{
    lemma_toks_size_split(s, i);
    let r = s.subrange(i, s.len() as int);
    assert(r[0] == s[i]);
}

/// Each option is no larger than all options together
pub proof fn lemma_opts_size_elem(s: Seq<Seq<SpecRuleToken>>, j: int)
    requires
        0 <= j < s.len(),
    ensures
        toks_size(s[j]) <= opts_size(s),
    decreases s.len(),
{
    if j > 0 {
        lemma_opts_size_elem(s.drop_first(), j - 1);
    }
}

/// The tokens of a list of tokens, taken from a vector
proof fn lemma_token_at<'s>(v: Seq<RuleToken<'s>>, i: int)
    requires
        0 <= i < v.len(),
    ensures
        tokens_view(v).len() == v.len(),
        tokens_view(v)[i] == crate::rules::token_view(v[i]),
{
    lemma_tokens_view_len(v);
    lemma_tokens_view_index(v, i);
}

/// Converts a list of tokens to the phones it stands for under the given choices
pub fn as_phones<'s>(tokens: &[RuleToken<'s>], choices: &Choices<'s>) -> (r: Option<Vec<Phone<'s>>>)
    ensures
        match r {
            Some(v) => spec_as_phones(tokens_view(tokens@), choices@) == Some(phones_view(v@)),
            None => spec_as_phones(tokens_view(tokens@), choices@) is None,
        },
    decreases toks_size(tokens_view(tokens@)),
{
    let ghost tv = tokens_view(tokens@);
    proof {
        lemma_tokens_view_len(tokens@);
    }
    let mut out: Vec<Phone<'s>> = Vec::new();
    let mut k: usize = 0;
    assert(tv.subrange(0, 0) =~= Seq::<SpecRuleToken>::empty());
    assert(tv.subrange(0, tv.len() as int) =~= tv);
    while k < tokens.len()
        invariant
            tv == tokens_view(tokens@),
            tv.len() == tokens@.len(),
            k <= tokens@.len(),
            spec_as_phones(tv, choices@) == match spec_as_phones(tv.subrange(k as int, tv.len() as int), choices@) {
                Some(rest) => Some(phones_view(out@) + rest),
                None => None::<Seq<SpecPhone>>,
            },
        decreases tokens@.len() - k,
    {
        let ghost rest = tv.subrange(k as int, tv.len() as int);
        proof {
            lemma_token_at(tokens@, k as int);
            assert(rest[0] == tv[k as int]);
            assert(rest.drop_first() =~= tv.subrange(k + 1, tv.len() as int));
            lemma_toks_size_split(tv, k as int);
            lemma_toks_size_split(rest, 1);
            assert(rest.subrange(0, 1).drop_first() =~= Seq::<SpecRuleToken>::empty());
        }
        let ghost before = phones_view(out@);
        let mut part: Vec<Phone<'s>> = Vec::new();
        match &tokens[k] {
            RuleToken::Phone(p) => {
                part.push(*p);
            },
            RuleToken::Any { id: Some(id) } => {
                match choices.any(id) {
                    Some(p) => { part.push(p); },
                    None => { return None; },
                }
            },
            RuleToken::Gap { id: Some(name) } => {
                if choices.repetition(name) != Some(0usize) {
                    return None;
                }
            },
            RuleToken::OptionalScope { id: Some(id), content } => {
                match choices.optional(id) {
                    Some(true) => {
                        proof {
                            lemma_toks_size_elem(tv, k as int);
                        }
                        match as_phones(content.as_slice(), choices) {
                            Some(v) => { part = v; },
                            None => { return None; },
                        }
                    },
                    Some(false) => {},
                    None => { return None; },
                }
            },
            RuleToken::SelectionScope { id: Some(id), options } => {
                match choices.selection(id) {
                    Some(j) => {
                        if j < options.len() {
                            proof {
                                lemma_options_view_len(options@);
                                lemma_options_view_index(options@, j as int);
                                lemma_opts_size_elem(options_view(options@), j as int);
                                lemma_toks_size_elem(tv, k as int);
                            }
                            match as_phones(options[j].as_slice(), choices) {
                                Some(v) => { part = v; },
                                None => { return None; },
                            }
                        } else {
                            proof {
                                lemma_options_view_len(options@);
                            }
                            return None;
                        }
                    },
                    None => { return None; },
                }
            },
            _ => {
                return None;
            },
        }
        let ghost pv = phones_view(part@);
        let mut m: usize = 0;
        while m < part.len()
            invariant
                m <= part@.len(),
                pv == phones_view(part@),
                phones_view(out@) == before + pv.subrange(0, m as int),
            decreases part@.len() - m,
        {
            let ghost prev = out@;
            out.push(part[m]);
            assert(out@ == prev.push(part@[m as int]));
            assert(phones_view(out@) =~= phones_view(prev).push(part@[m as int]@));
            assert(pv.subrange(0, m + 1) =~= pv.subrange(0, m as int).push(pv[m as int]));
            m += 1;
            assert(phones_view(out@) =~= before + pv.subrange(0, m as int));
        }
        assert(pv.subrange(0, m as int) =~= pv);
        proof {
            match spec_as_phones(rest.drop_first(), choices@) {
                Some(r2) => { assert(before + (pv + r2) =~= (before + pv) + r2); },
                None => {},
            }
        }
        k += 1;
    }
    assert(tv.subrange(k as int, tv.len() as int) =~= Seq::<SpecRuleToken>::empty());
    assert(phones_view(out@) + Seq::<SpecPhone>::empty() =~= phones_view(out@));
    Some(out)
}


// ---------------------------------------------------------------------------
// Searching for matches

/// Errors that occur while matching
#[derive(Debug, PartialEq, Eq)]
pub enum MatchError {
    /// The left side of a match condition does not stand for fixed phones
    PatternCannotBeConvertedToPhones,
    /// The input of a rule holds a gap, which only conditions may hold
    GapOutOfCond,
}

/// Both sides of the input, read away from it: the left side right-to-left,
/// the right side left-to-right
#[derive(Debug)]
pub struct CondPhoneInput<'p, 's> {
    pub left: Phones<'p, 's>,
    pub right: Phones<'p, 's>,
}

/// The mathematical value of both sides of the input
pub open spec fn env_view(e: CondPhoneInput) -> (SpecPhones, SpecPhones) {
    (e.left@, e.right@)
}

/// The readers around an input that was read by `input` and is `n` phones long
pub open spec fn spec_cond_env(input: SpecPhones, n: int) -> (SpecPhones, SpecPhones) {
    let ps = input.phones;
    match input.index {
        None => (
            SpecPhones { phones: ps, index: None, dir: Direction::Rtl },
            SpecPhones { phones: ps, index: None, dir: Direction::Ltr },
        ),
        Some(s) => match input.dir {
            Direction::Ltr => (
                SpecPhones { phones: ps, index: if s >= 1 { Some(s - 1) } else { None }, dir: Direction::Rtl },
                SpecPhones { phones: ps, index: if s + n <= ps.len() { Some(s + n) } else { None }, dir: Direction::Ltr },
            ),
            Direction::Rtl => (
                SpecPhones { phones: ps, index: if n <= s { Some(s - n) } else { None }, dir: Direction::Rtl },
                SpecPhones { phones: ps, index: if s + 1 <= ps.len() { Some(s + 1) } else { None }, dir: Direction::Ltr },
            ),
        },
    }
}

/// Builds the readers around an input that was read by `input` and is `n` phones long
fn cond_env<'p, 's>(input: &Phones<'p, 's>, n: usize) -> (r: CondPhoneInput<'p, 's>)
    ensures
        env_view(r) == spec_cond_env(input@, n as int),
{
    let ps = input.phone_list;
    let len = ps.len();
    match input.index {
        None => CondPhoneInput {
            left: Phones { phone_list: ps, index: None, direction: Direction::Rtl },
            right: Phones { phone_list: ps, index: None, direction: Direction::Ltr },
        },
        Some(s) => match input.direction {
            Direction::Ltr => CondPhoneInput {
                left: Phones { phone_list: ps, index: if s >= 1 { Some(s - 1) } else { None }, direction: Direction::Rtl },
                right: Phones {
                    phone_list: ps,
                    index: if s <= len && n <= len - s { Some(s + n) } else { None },
                    direction: Direction::Ltr,
                },
            },
            Direction::Rtl => CondPhoneInput {
                left: Phones { phone_list: ps, index: if n <= s { Some(s - n) } else { None }, direction: Direction::Rtl },
                right: Phones { phone_list: ps, index: if s < len { Some(s + 1) } else { None }, direction: Direction::Ltr },
            },
        },
    }
}

/// What must hold once a list of tokens has matched, for the match to count:
/// nothing more; a condition (its left side, then its right side, then the
/// sub-conditions joined to it); a length; no anti-condition matching;
/// one of several conditions; or the conditions of a rule around its input
pub enum SpecGoal {
    Accept,
    Start { cond: SpecCond, then: Box<SpecGoal> },
    Right { cond: SpecCond, then: Box<SpecGoal> },
    Exact { len: nat, then: Box<SpecGoal> },
    Chain { cond: SpecCond, then: Box<SpecGoal> },
    NoAnti { anti: Seq<SpecCond>, k: nat },
    AnyCond { conds: Seq<SpecCond>, k: nat, then: Box<SpecGoal> },
    Rule { conds: Seq<SpecCond>, anti: Seq<SpecCond>, input: SpecPhones },
}

/// The result of a search: no match, the first match (its length and the
/// choices made), or an error
pub enum SpecOutcome {
    Fail,
    Found(usize, SpecChoices),
    Error,
}

/// The first of two results that is not a failure
pub open spec fn or_else(a: SpecOutcome, b: SpecOutcome) -> SpecOutcome {
    if a is Fail {
        b
    } else {
        a
    }
}

/// The number of conditions in a chain of sub-conditions
pub open spec fn cond_rank(c: SpecCond) -> nat
    decreases c,
{
    match c.and {
        None => 1,
        Some((_, inner)) => 1 + cond_rank(*inner),
    }
}

/// The weight of the conditions of a list from the `k`th on
pub open spec fn conds_weight(s: Seq<SpecCond>, k: nat) -> nat
    decreases s.len() - k,
{
    if k >= s.len() {
        0
    } else {
        4 * cond_rank(s[k as int]) + conds_weight(s, k + 1)
    }
}

/// A measure of how much is left to check in a goal
pub open spec fn goal_rank(g: SpecGoal) -> nat
    decreases g,
{
    match g {
        SpecGoal::Accept => 0,
        SpecGoal::Start { cond, then } => goal_rank(*then) + 4 * cond_rank(cond) + 2,
        SpecGoal::Right { cond, then } => goal_rank(*then) + 4 * cond_rank(cond) + 1,
        SpecGoal::Exact { then, .. } => goal_rank(*then) + 1,
        SpecGoal::Chain { cond, then } => goal_rank(*then) + 4 * cond_rank(cond),
        SpecGoal::NoAnti { anti, k } => 3 + conds_weight(anti, k),
        SpecGoal::AnyCond { conds, k, then } => goal_rank(*then) + 3 + conds_weight(conds, k),
        SpecGoal::Rule { conds, anti, .. } => 7 + conds_weight(anti, 0) + conds_weight(conds, 0),
    }
}

/// The size of what is left in a stack of token lists
pub open spec fn frames_size(f: Seq<Seq<SpecRuleToken>>) -> nat
    decreases f.len(),
{
    if f.len() == 0 {
        0
    } else {
        toks_size(f[0]) + frames_size(f.drop_first())
    }
}

/// The token read next from a list: the first one left-to-right, the last one right-to-left
pub open spec fn next_tok(s: Seq<SpecRuleToken>, dir: Direction) -> SpecRuleToken {
    match dir {
        Direction::Ltr => s[0],
        Direction::Rtl => s.last(),
    }
}

/// What is left of a list once its next token is read
pub open spec fn rest_toks(s: Seq<SpecRuleToken>, dir: Direction) -> Seq<SpecRuleToken> {
    match dir {
        Direction::Ltr => s.drop_first(),
        Direction::Rtl => s.drop_last(),
    }
}

/// Reading a token takes its size from the list
pub proof fn lemma_rest_toks_size(s: Seq<SpecRuleToken>, dir: Direction)
    requires
        s.len() > 0,
    ensures
        toks_size(s) == tok_size(next_tok(s, dir)) + toks_size(rest_toks(s, dir)),
{
    if dir is Rtl {
        lemma_toks_size_split(s, s.len() - 1);
        let last = s.subrange(s.len() - 1, s.len() as int);
        assert(last[0] == s.last());
        assert(last.drop_first() =~= Seq::<SpecRuleToken>::empty());
        assert(toks_size(Seq::<SpecRuleToken>::empty()) == 0);
        assert(toks_size(last) == tok_size(last[0]) + toks_size(last.drop_first()));
        assert(s.subrange(0, s.len() - 1) =~= s.drop_last());
    }
}

/// The size of a stack with a new top
pub proof fn lemma_frames_size_update(f: Seq<Seq<SpecRuleToken>>, top: Seq<SpecRuleToken>)
    requires
        f.len() > 0,
    ensures
        frames_size(f.update(0, top)) + toks_size(f[0]) == frames_size(f) + toks_size(top),
{
    assert(f.update(0, top).drop_first() =~= f.drop_first());
}

/// The size of a stack with a list pushed on top
pub proof fn lemma_frames_size_push(f: Seq<Seq<SpecRuleToken>>, top: Seq<SpecRuleToken>)
    ensures
        frames_size(seq![top] + f) == frames_size(f) + toks_size(top),
{
    assert((seq![top] + f).drop_first() =~= f);
}

/// The size of the options of a selection from the `j`th on
pub open spec fn opts_size_from(s: Seq<Seq<SpecRuleToken>>, j: int) -> nat {
    opts_size(s.subrange(j, s.len() as int))
}

/// The options from the `j`th on are the `j`th and the options after it
pub proof fn lemma_opts_size_from(s: Seq<Seq<SpecRuleToken>>, j: int)
    requires
        0 <= j < s.len(),
    ensures
        opts_size_from(s, j) == toks_size(s[j]) + opts_size_from(s, j + 1),
{
    let r = s.subrange(j, s.len() as int);
    assert(r[0] == s[j]);
    assert(r.drop_first() =~= s.subrange(j + 1, s.len() as int));
}

/// Choices with one more selection recorded
pub open spec fn add_selection(ch: SpecChoices, id: SpecScopeId, j: usize) -> SpecChoices {
    SpecChoices { selection: ch.selection.push((id, j)), ..ch }
}

/// Choices with one more optional scope recorded
pub open spec fn add_optional(ch: SpecChoices, id: SpecScopeId, b: bool) -> SpecChoices {
    SpecChoices { optional: ch.optional.push((id, b)), ..ch }
}

/// Choices with one more wildcard recorded
pub open spec fn add_any(ch: SpecChoices, id: SpecScopeId, p: SpecPhone) -> SpecChoices {
    SpecChoices { any: ch.any.push((id, p)), ..ch }
}

/// Choices with one more gap length recorded
pub open spec fn add_repetition(ch: SpecChoices, name: Seq<char>, len: usize) -> SpecChoices {
    SpecChoices { repetition: ch.repetition.push((name, len)), ..ch }
}

/// The first match, in order, of a stack of token lists against the phones read by `r`
/// after `n` phones, for which the goal holds. Tokens are read in the reader's direction:
/// a phone matches a phone; a wildcard matches a non-boundary phone (the same phone each
/// time for one label); an optional scope is tried with its content, then without (one
/// choice for one label); a selection tries its options in order (one choice for one
/// label); a gap tries lengths from zero up, over non-boundary phones (no longer than the
/// first gap of its label)
pub open spec fn spec_search(
    env: (SpecPhones, SpecPhones),
    goal: SpecGoal,
    r: SpecPhones,
    frames: Seq<Seq<SpecRuleToken>>,
    n: usize,
    ch: SpecChoices,
) -> SpecOutcome
    decreases goal_rank(goal), frames_size(frames) + 1, frames.len(), 0nat,
{
    if frames.len() == 0 {
        match spec_goal(env, goal, n, ch) {
            SpecOutcome::Found(_, c) => SpecOutcome::Found(n, c),
            o => o,
        }
    } else if frames[0].len() == 0 {
        spec_search(env, goal, r, frames.drop_first(), n, ch)
    } else {
        let top = frames[0];
        let t = next_tok(top, r.dir);
        let fr = frames.update(0, rest_toks(top, r.dir));
        proof {
            lemma_rest_toks_size(top, r.dir);
            lemma_frames_size_update(frames, rest_toks(top, r.dir));
        }
        match t {
            SpecRuleToken::Phone(p) => if n < usize::MAX && spec_phones_match(p, spec_read(r, n as int)) {
                spec_search(env, goal, r, fr, (n + 1) as usize, ch)
            } else {
                SpecOutcome::Fail
            },
            SpecRuleToken::Any { id } => {
                let ph = spec_read(r, n as int);
                if n >= usize::MAX {
                    SpecOutcome::Fail
                } else {
                    match id {
                        None => if !spec_is_bound(ph) {
                            spec_search(env, goal, r, fr, (n + 1) as usize, ch)
                        } else {
                            SpecOutcome::Fail
                        },
                        Some(id) => match assoc(ch.any, id) {
                            Some(c) => if spec_phones_match(ph, c) {
                                spec_search(env, goal, r, fr, (n + 1) as usize, ch)
                            } else {
                                SpecOutcome::Fail
                            },
                            None => if !spec_is_bound(ph) {
                                spec_search(env, goal, r, fr, (n + 1) as usize, add_any(ch, id, ph))
                            } else {
                                SpecOutcome::Fail
                            },
                        },
                    }
                }
            },
            SpecRuleToken::OptionalScope { id, content } => {
                proof {
                    lemma_frames_size_push(fr, content);
                }
                match id {
                    None => or_else(
                        spec_search(env, goal, r, seq![content] + fr, n, ch),
                        spec_search(env, goal, r, fr, n, ch),
                    ),
                    Some(id) => match assoc(ch.optional, id) {
                        Some(true) => spec_search(env, goal, r, seq![content] + fr, n, ch),
                        Some(false) => spec_search(env, goal, r, fr, n, ch),
                        None => or_else(
                            spec_search(env, goal, r, seq![content] + fr, n, add_optional(ch, id, true)),
                            spec_search(env, goal, r, fr, n, add_optional(ch, id, false)),
                        ),
                    },
                }
            },
            SpecRuleToken::SelectionScope { id, options } => {
                proof {
                    assert(options.subrange(0, options.len() as int) =~= options);
                }
                match id {
                    Some(id) => match assoc(ch.selection, id) {
                        Some(j) => if j < options.len() {
                            proof {
                                lemma_opts_size_elem(options, j as int);
                                lemma_frames_size_push(fr, options[j as int]);
                            }
                            spec_search(env, goal, r, seq![options[j as int]] + fr, n, ch)
                        } else {
                            SpecOutcome::Fail
                        },
                        None => spec_select(env, goal, r, fr, options, Some(id), 0, n, ch),
                    },
                    None => spec_select(env, goal, r, fr, options, None, 0, n, ch),
                }
            },
            SpecRuleToken::Gap { id } => match id {
                Some(name) => spec_gap(env, goal, r, fr, Some(name), assoc(ch.repetition, name), 0, n, ch),
                None => spec_gap(env, goal, r, fr, None, None, 0, n, ch),
            },
        }
    }
}

/// The first match that takes one of the options of a selection from the `j`th on
pub open spec fn spec_select(
    env: (SpecPhones, SpecPhones),
    goal: SpecGoal,
    r: SpecPhones,
    fr: Seq<Seq<SpecRuleToken>>,
    options: Seq<Seq<SpecRuleToken>>,
    id: Option<SpecScopeId>,
    j: nat,
    n: usize,
    ch: SpecChoices,
) -> SpecOutcome
    decreases goal_rank(goal), frames_size(fr) + opts_size_from(options, j as int) + 1, fr.len() + 2, options.len() - j,
{
    if j >= options.len() || j > usize::MAX {
        SpecOutcome::Fail
    } else {
        proof {
            lemma_opts_size_from(options, j as int);
            lemma_frames_size_push(fr, options[j as int]);
        }
        let ch2 = match id {
            Some(id) => add_selection(ch, id, j as usize),
            None => ch,
        };
        or_else(
            spec_search(env, goal, r, seq![options[j as int]] + fr, n, ch2),
            spec_select(env, goal, r, fr, options, id, j + 1, n, ch),
        )
    }
}

/// The first match with a gap of length `len` or longer; `limit` is the length of the
/// first gap with the same label, if there was one
pub open spec fn spec_gap(
    env: (SpecPhones, SpecPhones),
    goal: SpecGoal,
    r: SpecPhones,
    fr: Seq<Seq<SpecRuleToken>>,
    name: Option<Seq<char>>,
    limit: Option<usize>,
    len: nat,
    n: usize,
    ch: SpecChoices,
) -> SpecOutcome
    decreases goal_rank(goal), frames_size(fr) + 1, fr.len() + 1, r.phones.len() + 1 - len,
{
    if n + len > usize::MAX || len > r.phones.len() + 1 {
        SpecOutcome::Fail
    } else if limit matches Some(m) && len > m {
        SpecOutcome::Fail
    } else {
        let ch2 = match name {
            Some(nm) => if limit is None { add_repetition(ch, nm, len as usize) } else { ch },
            None => ch,
        };
        or_else(
            spec_search(env, goal, r, fr, (n + len) as usize, ch2),
            if len <= r.phones.len() && !spec_is_bound(spec_read(r, n + len)) {
                spec_gap(env, goal, r, fr, name, limit, len + 1, n, ch)
            } else {
                SpecOutcome::Fail
            },
        )
    }
}

/// Whether a goal holds for a match of `n` phones with the choices `ch`,
/// and the choices it adds
pub open spec fn spec_goal(env: (SpecPhones, SpecPhones), goal: SpecGoal, n: usize, ch: SpecChoices) -> SpecOutcome
    decreases goal_rank(goal), 0nat, 0nat, 0nat,
{
    match goal {
        SpecGoal::Accept => SpecOutcome::Found(n, ch),
        SpecGoal::Start { cond, then } => match cond.kind {
            crate::tokens::CondType::Pattern => spec_search(
                env,
                SpecGoal::Right { cond, then },
                env.0,
                seq![cond.before],
                0,
                ch,
            ),
            crate::tokens::CondType::Match => match spec_as_phones(cond.before, ch) {
                None => SpecOutcome::Error,
                Some(ps) => {
                    proof {
                        let g = SpecGoal::Chain { cond, then };
                        assert(goal_rank(g) == goal_rank(*then) + 4 * cond_rank(cond));
                        assert(goal_rank(SpecGoal::Exact { len: ps.len(), then: Box::new(g) }) == goal_rank(g) + 1);
                    }
                    spec_search(
                    env,
                    SpecGoal::Exact { len: ps.len(), then: Box::new(SpecGoal::Chain { cond, then }) },
                    spec_new_phones(ps, 0, Direction::Ltr),
                    seq![cond.after],
                    0,
                    ch,
                )},
            },
        },
        SpecGoal::Right { cond, then } => spec_search(env, SpecGoal::Chain { cond, then }, env.1, seq![cond.after], 0, ch),
        SpecGoal::Exact { len, then } => if n == len {
            spec_goal(env, *then, n, ch)
        } else {
            SpecOutcome::Fail
        },
        SpecGoal::Chain { cond, then } => match cond.and {
            None => spec_goal(env, *then, n, ch),
            Some((crate::tokens::AndType::And, inner)) => spec_goal(env, SpecGoal::Start { cond: *inner, then }, n, ch),
            Some((crate::tokens::AndType::AndNot, inner)) => match spec_goal(
                env,
                SpecGoal::Start { cond: *inner, then: Box::new(SpecGoal::Accept) },
                n,
                ch,
            ) {
                SpecOutcome::Fail => spec_goal(env, *then, n, ch),
                SpecOutcome::Found(_, _) => SpecOutcome::Fail,
                SpecOutcome::Error => SpecOutcome::Error,
            },
        },
        SpecGoal::NoAnti { anti, k } => if k >= anti.len() {
            SpecOutcome::Found(n, ch)
        } else {
            match spec_goal(env, SpecGoal::Start { cond: anti[k as int], then: Box::new(SpecGoal::Accept) }, n, ch) {
                SpecOutcome::Fail => spec_goal(env, SpecGoal::NoAnti { anti, k: k + 1 }, n, ch),
                SpecOutcome::Found(_, _) => SpecOutcome::Fail,
                SpecOutcome::Error => SpecOutcome::Error,
            }
        },
        SpecGoal::AnyCond { conds, k, then } => if k >= conds.len() {
            SpecOutcome::Fail
        } else {
            or_else(
                spec_goal(env, SpecGoal::Start { cond: conds[k as int], then }, n, ch),
                spec_goal(env, SpecGoal::AnyCond { conds, k: k + 1, then }, n, ch),
            )
        },
        SpecGoal::Rule { conds, anti, input } => {
            let env2 = spec_cond_env(input, n as int);
            if conds.len() == 0 {
                spec_goal(env2, SpecGoal::NoAnti { anti, k: 0 }, n, ch)
            } else {
                proof {
                    let na = SpecGoal::NoAnti { anti, k: 0 };
                    assert(goal_rank(na) == 3 + conds_weight(anti, 0));
                    assert(goal_rank(SpecGoal::AnyCond { conds, k: 0, then: Box::new(na) }) == goal_rank(na) + 3 + conds_weight(conds, 0));
                }
                spec_goal(env2, SpecGoal::AnyCond { conds, k: 0, then: Box::new(SpecGoal::NoAnti { anti, k: 0 }) }, n, ch)
            }
        },
    }
}

/// Whether the choices `d` keep every choice of `c`: each label chosen in `c`
/// has the same choice in `d`
pub open spec fn keeps_choices(c: SpecChoices, d: SpecChoices) -> bool {
    &&& forall|k: SpecScopeId| assoc(c.selection, k) is Some ==> #[trigger] assoc(d.selection, k) == assoc(c.selection, k)
    &&& forall|k: SpecScopeId| assoc(c.optional, k) is Some ==> #[trigger] assoc(d.optional, k) == assoc(c.optional, k)
    &&& forall|k: SpecScopeId| assoc(c.any, k) is Some ==> #[trigger] assoc(d.any, k) == assoc(c.any, k)
    &&& forall|k: Seq<char>| assoc(c.repetition, k) is Some ==> #[trigger] assoc(d.repetition, k) == assoc(c.repetition, k)
}

/// Keeping choices is transitive
proof fn lemma_keeps_trans(a: SpecChoices, b: SpecChoices, c: SpecChoices)
    requires
        keeps_choices(a, b),
        keeps_choices(b, c),
    ensures
        keeps_choices(a, c),
{
    assert forall|k: SpecScopeId| assoc(a.selection, k) is Some implies #[trigger] assoc(c.selection, k) == assoc(a.selection, k) by {
        assert(assoc(b.selection, k) == assoc(a.selection, k));
    }
    assert forall|k: SpecScopeId| assoc(a.optional, k) is Some implies #[trigger] assoc(c.optional, k) == assoc(a.optional, k) by {
        assert(assoc(b.optional, k) == assoc(a.optional, k));
    }
    assert forall|k: SpecScopeId| assoc(a.any, k) is Some implies #[trigger] assoc(c.any, k) == assoc(a.any, k) by {
        assert(assoc(b.any, k) == assoc(a.any, k));
    }
    assert forall|k: Seq<char>| assoc(a.repetition, k) is Some implies #[trigger] assoc(c.repetition, k) == assoc(a.repetition, k) by {
        assert(assoc(b.repetition, k) == assoc(a.repetition, k));
    }
}

/// Recording a choice for a label that had none keeps every other choice
proof fn lemma_assoc_push<K, V>(s: Seq<(K, V)>, id: K, v: V, k: K)
    requires
        assoc(s, id) is None,
        assoc(s, k) is Some,
    ensures
        assoc(s.push((id, v)), k) == assoc(s, k),
{
    assert(s.push((id, v)).drop_last() =~= s);
}

/// Recording new choices keeps the old ones
proof fn lemma_keeps_add(ch: SpecChoices, d: SpecChoices)
    requires
        d == ch || (exists|id: SpecScopeId, j: usize| assoc(ch.selection, id) is None && d == add_selection(ch, id, j))
            || (exists|id: SpecScopeId, b: bool| assoc(ch.optional, id) is None && d == add_optional(ch, id, b))
            || (exists|id: SpecScopeId, p: SpecPhone| assoc(ch.any, id) is None && d == add_any(ch, id, p))
            || (exists|nm: Seq<char>, l: usize| assoc(ch.repetition, nm) is None && d == add_repetition(ch, nm, l)),
    ensures
        keeps_choices(ch, d),
{
    if d == ch {
        assert(keeps_choices(ch, d));
    } else if exists|id: SpecScopeId, j: usize| assoc(ch.selection, id) is None && d == add_selection(ch, id, j) {
        let (id, j) = choose|id: SpecScopeId, j: usize| assoc(ch.selection, id) is None && d == add_selection(ch, id, j);
        assert forall|k: SpecScopeId| assoc(ch.selection, k) is Some implies #[trigger] assoc(d.selection, k) == assoc(ch.selection, k) by {
            lemma_assoc_push(ch.selection, id, j, k);
        }
    } else if exists|id: SpecScopeId, b: bool| assoc(ch.optional, id) is None && d == add_optional(ch, id, b) {
        let (id, b) = choose|id: SpecScopeId, b: bool| assoc(ch.optional, id) is None && d == add_optional(ch, id, b);
        assert forall|k: SpecScopeId| assoc(ch.optional, k) is Some implies #[trigger] assoc(d.optional, k) == assoc(ch.optional, k) by {
            lemma_assoc_push(ch.optional, id, b, k);
        }
    } else if exists|id: SpecScopeId, p: SpecPhone| assoc(ch.any, id) is None && d == add_any(ch, id, p) {
        let (id, p) = choose|id: SpecScopeId, p: SpecPhone| assoc(ch.any, id) is None && d == add_any(ch, id, p);
        assert forall|k: SpecScopeId| assoc(ch.any, k) is Some implies #[trigger] assoc(d.any, k) == assoc(ch.any, k) by {
            lemma_assoc_push(ch.any, id, p, k);
        }
    } else {
        let (nm, l) = choose|nm: Seq<char>, l: usize| assoc(ch.repetition, nm) is None && d == add_repetition(ch, nm, l);
        assert forall|k: Seq<char>| assoc(ch.repetition, k) is Some implies #[trigger] assoc(d.repetition, k) == assoc(ch.repetition, k) by {
            lemma_assoc_push(ch.repetition, nm, l, k);
        }
    }
}

/// The outcome of a search keeps the choices it started from
pub open spec fn found_keeps(o: SpecOutcome, ch: SpecChoices) -> bool {
    o matches SpecOutcome::Found(_, d) ==> keeps_choices(ch, d)
}

/// A match never takes back a choice: the first match of a search keeps every choice it
/// started from, so that parts with the same label agree with what was chosen before them
pub proof fn lemma_search_keeps(
    env: (SpecPhones, SpecPhones),
    goal: SpecGoal,
    r: SpecPhones,
    frames: Seq<Seq<SpecRuleToken>>,
    n: usize,
    ch: SpecChoices,
)
    ensures
        found_keeps(spec_search(env, goal, r, frames, n, ch), ch),
    decreases goal_rank(goal), frames_size(frames) + 1, frames.len(), 0nat,
{
    if frames.len() == 0 {
        lemma_goal_keeps(env, goal, n, ch);
    } else if frames[0].len() == 0 {
        lemma_search_keeps(env, goal, r, frames.drop_first(), n, ch);
    } else {
        let top = frames[0];
        let t = next_tok(top, r.dir);
        let fr = frames.update(0, rest_toks(top, r.dir));
        lemma_rest_toks_size(top, r.dir);
        lemma_frames_size_update(frames, rest_toks(top, r.dir));
        let o = spec_search(env, goal, r, frames, n, ch);
        match t {
            SpecRuleToken::Phone(p) => {
                if n < usize::MAX {
                    lemma_search_keeps(env, goal, r, fr, (n + 1) as usize, ch);
                }
            },
            SpecRuleToken::Any { id } => {
                let ph = spec_read(r, n as int);
                if n < usize::MAX {
                    lemma_search_keeps(env, goal, r, fr, (n + 1) as usize, ch);
                    if let Some(id) = id {
                        if assoc(ch.any, id) is None {
                            let d = add_any(ch, id, ph);
                            lemma_search_keeps(env, goal, r, fr, (n + 1) as usize, d);
                            lemma_keeps_add(ch, d);
                            if let SpecOutcome::Found(_, e) = spec_search(env, goal, r, fr, (n + 1) as usize, d) {
                                lemma_keeps_trans(ch, d, e);
                            }
                        }
                    }
                }
            },
            SpecRuleToken::OptionalScope { id, content } => {
                lemma_frames_size_push(fr, content);
                lemma_search_keeps(env, goal, r, seq![content] + fr, n, ch);
                lemma_search_keeps(env, goal, r, fr, n, ch);
                if let Some(id) = id {
                    if assoc(ch.optional, id) is None {
                        let d1 = add_optional(ch, id, true);
                        let d2 = add_optional(ch, id, false);
                        lemma_search_keeps(env, goal, r, seq![content] + fr, n, d1);
                        lemma_search_keeps(env, goal, r, fr, n, d2);
                        lemma_keeps_add(ch, d1);
                        lemma_keeps_add(ch, d2);
                        if let SpecOutcome::Found(_, e) = spec_search(env, goal, r, seq![content] + fr, n, d1) {
                            lemma_keeps_trans(ch, d1, e);
                        }
                        if let SpecOutcome::Found(_, e) = spec_search(env, goal, r, fr, n, d2) {
                            lemma_keeps_trans(ch, d2, e);
                        }
                    }
                }
            },
            SpecRuleToken::SelectionScope { id, options } => {
                assert(options.subrange(0, options.len() as int) =~= options);
                match id {
                    Some(id) => match assoc(ch.selection, id) {
                        Some(j) => if j < options.len() {
                            lemma_opts_size_elem(options, j as int);
                            lemma_frames_size_push(fr, options[j as int]);
                            lemma_search_keeps(env, goal, r, seq![options[j as int]] + fr, n, ch);
                        },
                        None => lemma_select_keeps(env, goal, r, fr, options, Some(id), 0, n, ch),
                    },
                    None => lemma_select_keeps(env, goal, r, fr, options, None, 0, n, ch),
                }
            },
            SpecRuleToken::Gap { id } => match id {
                Some(name) => lemma_gap_keeps(env, goal, r, fr, Some(name), assoc(ch.repetition, name), 0, n, ch),
                None => lemma_gap_keeps(env, goal, r, fr, None, None, 0, n, ch),
            },
        }
    }
}

proof fn lemma_select_keeps(
    env: (SpecPhones, SpecPhones),
    goal: SpecGoal,
    r: SpecPhones,
    fr: Seq<Seq<SpecRuleToken>>,
    options: Seq<Seq<SpecRuleToken>>,
    id: Option<SpecScopeId>,
    j: nat,
    n: usize,
    ch: SpecChoices,
)
    requires
        id matches Some(i) ==> assoc(ch.selection, i) is None,
    ensures
        found_keeps(spec_select(env, goal, r, fr, options, id, j, n, ch), ch),
    decreases goal_rank(goal), frames_size(fr) + opts_size_from(options, j as int) + 1, fr.len() + 2, options.len() - j,
{
    if !(j >= options.len() || j > usize::MAX) {
        lemma_opts_size_from(options, j as int);
        lemma_frames_size_push(fr, options[j as int]);
        let ch2 = match id {
            Some(i) => add_selection(ch, i, j as usize),
            None => ch,
        };
        lemma_search_keeps(env, goal, r, seq![options[j as int]] + fr, n, ch2);
        lemma_select_keeps(env, goal, r, fr, options, id, j + 1, n, ch);
        lemma_keeps_add(ch, ch2);
        if let SpecOutcome::Found(_, e) = spec_search(env, goal, r, seq![options[j as int]] + fr, n, ch2) {
            lemma_keeps_trans(ch, ch2, e);
        }
    }
}

proof fn lemma_gap_keeps(
    env: (SpecPhones, SpecPhones),
    goal: SpecGoal,
    r: SpecPhones,
    fr: Seq<Seq<SpecRuleToken>>,
    name: Option<Seq<char>>,
    limit: Option<usize>,
    len: nat,
    n: usize,
    ch: SpecChoices,
)
    requires
        name matches Some(nm) ==> limit == assoc(ch.repetition, nm),
    ensures
        found_keeps(spec_gap(env, goal, r, fr, name, limit, len, n, ch), ch),
    decreases goal_rank(goal), frames_size(fr) + 1, fr.len() + 1, r.phones.len() + 1 - len,
{
    if !(n + len > usize::MAX || len > r.phones.len() + 1) && !(limit matches Some(m) && len > m) {
        let ch2 = match name {
            Some(nm) => if limit is None { add_repetition(ch, nm, len as usize) } else { ch },
            None => ch,
        };
        lemma_search_keeps(env, goal, r, fr, (n + len) as usize, ch2);
        lemma_keeps_add(ch, ch2);
        if let SpecOutcome::Found(_, e) = spec_search(env, goal, r, fr, (n + len) as usize, ch2) {
            lemma_keeps_trans(ch, ch2, e);
        }
        if len <= r.phones.len() && !spec_is_bound(spec_read(r, n + len)) {
            lemma_gap_keeps(env, goal, r, fr, name, limit, len + 1, n, ch);
        }
    }
}

proof fn lemma_goal_keeps(env: (SpecPhones, SpecPhones), goal: SpecGoal, n: usize, ch: SpecChoices)
    ensures
        found_keeps(spec_goal(env, goal, n, ch), ch),
    decreases goal_rank(goal), 0nat, 0nat, 0nat,
{
    match goal {
        SpecGoal::Accept => {
            assert(spec_goal(env, goal, n, ch) == SpecOutcome::Found(n, ch));
            lemma_keeps_add(ch, ch);
        },
        SpecGoal::Start { cond, then } => match cond.kind {
            crate::tokens::CondType::Pattern => {
                lemma_search_keeps(env, SpecGoal::Right { cond, then }, env.0, seq![cond.before], 0, ch);
            },
            crate::tokens::CondType::Match => match spec_as_phones(cond.before, ch) {
                None => {},
                Some(ps) => {
                    let g = SpecGoal::Chain { cond, then };
                    assert(goal_rank(g) == goal_rank(*then) + 4 * cond_rank(cond));
                    assert(goal_rank(SpecGoal::Exact { len: ps.len(), then: Box::new(g) }) == goal_rank(g) + 1);
                    lemma_search_keeps(
                        env,
                        SpecGoal::Exact { len: ps.len(), then: Box::new(SpecGoal::Chain { cond, then }) },
                        spec_new_phones(ps, 0, Direction::Ltr),
                        seq![cond.after],
                        0,
                        ch,
                    );
                },
            },
        },
        SpecGoal::Right { cond, then } => {
            lemma_search_keeps(env, SpecGoal::Chain { cond, then }, env.1, seq![cond.after], 0, ch);
        },
        SpecGoal::Exact { len, then } => {
            lemma_goal_keeps(env, *then, n, ch);
        },
        SpecGoal::Chain { cond, then } => match cond.and {
            None => lemma_goal_keeps(env, *then, n, ch),
            Some((crate::tokens::AndType::And, inner)) => lemma_goal_keeps(env, SpecGoal::Start { cond: *inner, then }, n, ch),
            Some((crate::tokens::AndType::AndNot, inner)) => lemma_goal_keeps(env, *then, n, ch),
        },
        SpecGoal::NoAnti { anti, k } => {
            lemma_keeps_add(ch, ch);
            if k < anti.len() {
                lemma_goal_keeps(env, SpecGoal::NoAnti { anti, k: k + 1 }, n, ch);
            }
        },
        SpecGoal::AnyCond { conds, k, then } => {
            if k < conds.len() {
                lemma_goal_keeps(env, SpecGoal::Start { cond: conds[k as int], then }, n, ch);
                lemma_goal_keeps(env, SpecGoal::AnyCond { conds, k: k + 1, then }, n, ch);
            }
        },
        SpecGoal::Rule { conds, anti, input } => {
            let env2 = spec_cond_env(input, n as int);
            if conds.len() == 0 {
                lemma_goal_keeps(env2, SpecGoal::NoAnti { anti, k: 0 }, n, ch);
            } else {
                let na = SpecGoal::NoAnti { anti, k: 0 };
                assert(goal_rank(na) == 3 + conds_weight(anti, 0));
                assert(goal_rank(SpecGoal::AnyCond { conds, k: 0, then: Box::new(na) }) == goal_rank(na) + 3 + conds_weight(conds, 0));
                lemma_goal_keeps(env2, SpecGoal::AnyCond { conds, k: 0, then: Box::new(SpecGoal::NoAnti { anti, k: 0 }) }, n, ch);
            }
        },
    }
}

/// Whether two outcomes are of the same kind: both failures, both matches or both errors
pub open spec fn same_kind(a: SpecOutcome, b: SpecOutcome) -> bool {
    &&& (a is Fail <==> b is Fail)
    &&& (a is Found <==> b is Found)
    &&& (a is Error <==> b is Error)
}

/// Whether `o2` fails where `o1` fails and is of the kind of `k` where `o1` does not
pub open spec fn shaped(o2: SpecOutcome, o1: SpecOutcome, k: SpecOutcome) -> bool {
    if o1 is Fail {
        o2 is Fail
    } else {
        same_kind(o2, k)
    }
}

/// Whether the goal `g2` fails wherever `g1` does and is of the kind of `k` wherever `g1`
/// holds, and `g1` never ends in an error
pub open spec fn goals_shaped(env: (SpecPhones, SpecPhones), g1: SpecGoal, g2: SpecGoal, k: SpecOutcome) -> bool {
    forall|n: usize, c: SpecChoices| #![trigger spec_goal(env, g1, n, c)]
        !(spec_goal(env, g1, n, c) is Error) && shaped(spec_goal(env, g2, n, c), spec_goal(env, g1, n, c), k)
}

proof fn lemma_or_else_shaped(a1: SpecOutcome, b1: SpecOutcome, a2: SpecOutcome, b2: SpecOutcome, k: SpecOutcome)
    requires
        !(a1 is Error),
        !(b1 is Error),
        shaped(a2, a1, k),
        shaped(b2, b1, k),
    ensures
        !(or_else(a1, b1) is Error),
        shaped(or_else(a2, b2), or_else(a1, b1), k),
{
}

/// A search whose goal takes the shape of another goal takes the shape of the search with
/// that goal: it fails where that one fails, and is of the kind of `k` where it matches
proof fn lemma_search_shaped(
    env: (SpecPhones, SpecPhones),
    g1: SpecGoal,
    g2: SpecGoal,
    k: SpecOutcome,
    r: SpecPhones,
    frames: Seq<Seq<SpecRuleToken>>,
    n: usize,
    ch: SpecChoices,
)
    requires
        goals_shaped(env, g1, g2, k),
    ensures
        !(spec_search(env, g1, r, frames, n, ch) is Error),
        shaped(spec_search(env, g2, r, frames, n, ch), spec_search(env, g1, r, frames, n, ch), k),
    decreases frames_size(frames) + 1, frames.len(), 0nat,
{
    if frames.len() == 0 {
        assert(!(spec_goal(env, g1, n, ch) is Error));
    } else if frames[0].len() == 0 {
        lemma_search_shaped(env, g1, g2, k, r, frames.drop_first(), n, ch);
    } else {
        let top = frames[0];
        let t = next_tok(top, r.dir);
        let fr = frames.update(0, rest_toks(top, r.dir));
        lemma_rest_toks_size(top, r.dir);
        lemma_frames_size_update(frames, rest_toks(top, r.dir));
        match t {
            SpecRuleToken::Phone(p) => {
                if n < usize::MAX {
                    lemma_search_shaped(env, g1, g2, k, r, fr, (n + 1) as usize, ch);
                }
            },
            SpecRuleToken::Any { id } => {
                let ph = spec_read(r, n as int);
                if n < usize::MAX {
                    lemma_search_shaped(env, g1, g2, k, r, fr, (n + 1) as usize, ch);
                    if let Some(id) = id {
                        lemma_search_shaped(env, g1, g2, k, r, fr, (n + 1) as usize, add_any(ch, id, ph));
                    }
                }
            },
            SpecRuleToken::OptionalScope { id, content } => {
                lemma_frames_size_push(fr, content);
                lemma_search_shaped(env, g1, g2, k, r, seq![content] + fr, n, ch);
                lemma_search_shaped(env, g1, g2, k, r, fr, n, ch);
                if let Some(id) = id {
                    let d1 = add_optional(ch, id, true);
                    let d2 = add_optional(ch, id, false);
                    lemma_search_shaped(env, g1, g2, k, r, seq![content] + fr, n, d1);
                    lemma_search_shaped(env, g1, g2, k, r, fr, n, d2);
                    lemma_or_else_shaped(
                        spec_search(env, g1, r, seq![content] + fr, n, d1),
                        spec_search(env, g1, r, fr, n, d2),
                        spec_search(env, g2, r, seq![content] + fr, n, d1),
                        spec_search(env, g2, r, fr, n, d2),
                        k,
                    );
                } else {
                    lemma_or_else_shaped(
                        spec_search(env, g1, r, seq![content] + fr, n, ch),
                        spec_search(env, g1, r, fr, n, ch),
                        spec_search(env, g2, r, seq![content] + fr, n, ch),
                        spec_search(env, g2, r, fr, n, ch),
                        k,
                    );
                }
            },
            SpecRuleToken::SelectionScope { id, options } => {
                assert(options.subrange(0, options.len() as int) =~= options);
                match id {
                    Some(id) => match assoc(ch.selection, id) {
                        Some(j) => if j < options.len() {
                            lemma_opts_size_elem(options, j as int);
                            lemma_frames_size_push(fr, options[j as int]);
                            lemma_search_shaped(env, g1, g2, k, r, seq![options[j as int]] + fr, n, ch);
                        },
                        None => lemma_select_shaped(env, g1, g2, k, r, fr, options, Some(id), 0, n, ch),
                    },
                    None => lemma_select_shaped(env, g1, g2, k, r, fr, options, None, 0, n, ch),
                }
            },
            SpecRuleToken::Gap { id } => match id {
                Some(name) => lemma_gap_shaped(env, g1, g2, k, r, fr, Some(name), assoc(ch.repetition, name), 0, n, ch),
                None => lemma_gap_shaped(env, g1, g2, k, r, fr, None, None, 0, n, ch),
            },
        }
    }
}

proof fn lemma_select_shaped(
    env: (SpecPhones, SpecPhones),
    g1: SpecGoal,
    g2: SpecGoal,
    k: SpecOutcome,
    r: SpecPhones,
    fr: Seq<Seq<SpecRuleToken>>,
    options: Seq<Seq<SpecRuleToken>>,
    id: Option<SpecScopeId>,
    j: nat,
    n: usize,
    ch: SpecChoices,
)
    requires
        goals_shaped(env, g1, g2, k),
    ensures
        !(spec_select(env, g1, r, fr, options, id, j, n, ch) is Error),
        shaped(spec_select(env, g2, r, fr, options, id, j, n, ch), spec_select(env, g1, r, fr, options, id, j, n, ch), k),
    decreases frames_size(fr) + opts_size_from(options, j as int) + 1, fr.len() + 2, options.len() - j,
{
    if !(j >= options.len() || j > usize::MAX) {
        lemma_opts_size_from(options, j as int);
        lemma_frames_size_push(fr, options[j as int]);
        let ch2 = match id {
            Some(i) => add_selection(ch, i, j as usize),
            None => ch,
        };
        lemma_search_shaped(env, g1, g2, k, r, seq![options[j as int]] + fr, n, ch2);
        lemma_select_shaped(env, g1, g2, k, r, fr, options, id, j + 1, n, ch);
        lemma_or_else_shaped(
            spec_search(env, g1, r, seq![options[j as int]] + fr, n, ch2),
            spec_select(env, g1, r, fr, options, id, j + 1, n, ch),
            spec_search(env, g2, r, seq![options[j as int]] + fr, n, ch2),
            spec_select(env, g2, r, fr, options, id, j + 1, n, ch),
            k,
        );
    }
}

proof fn lemma_gap_shaped(
    env: (SpecPhones, SpecPhones),
    g1: SpecGoal,
    g2: SpecGoal,
    k: SpecOutcome,
    r: SpecPhones,
    fr: Seq<Seq<SpecRuleToken>>,
    name: Option<Seq<char>>,
    limit: Option<usize>,
    len: nat,
    n: usize,
    ch: SpecChoices,
)
    requires
        goals_shaped(env, g1, g2, k),
    ensures
        !(spec_gap(env, g1, r, fr, name, limit, len, n, ch) is Error),
        shaped(spec_gap(env, g2, r, fr, name, limit, len, n, ch), spec_gap(env, g1, r, fr, name, limit, len, n, ch), k),
    decreases frames_size(fr) + 1, fr.len() + 1, r.phones.len() + 1 - len,
{
    if !(n + len > usize::MAX || len > r.phones.len() + 1) && !(limit matches Some(m) && len > m) {
        let ch2 = match name {
            Some(nm) => if limit is None { add_repetition(ch, nm, len as usize) } else { ch },
            None => ch,
        };
        lemma_search_shaped(env, g1, g2, k, r, fr, (n + len) as usize, ch2);
        if len <= r.phones.len() && !spec_is_bound(spec_read(r, n + len)) {
            lemma_gap_shaped(env, g1, g2, k, r, fr, name, limit, len + 1, n, ch);
        }
        let rest1 = if len <= r.phones.len() && !spec_is_bound(spec_read(r, n + len)) {
            spec_gap(env, g1, r, fr, name, limit, len + 1, n, ch)
        } else {
            SpecOutcome::Fail
        };
        let rest2 = if len <= r.phones.len() && !spec_is_bound(spec_read(r, n + len)) {
            spec_gap(env, g2, r, fr, name, limit, len + 1, n, ch)
        } else {
            SpecOutcome::Fail
        };
        lemma_or_else_shaped(
            spec_search(env, g1, r, fr, (n + len) as usize, ch2),
            rest1,
            spec_search(env, g2, r, fr, (n + len) as usize, ch2),
            rest2,
            k,
        );
    }
}

/// A condition with a sub-condition joined by `&` holds only once the condition itself
/// holds, and then exactly as the sub-condition does: evaluating it fails where the condition
/// fails, gives the error where the condition gives one, and otherwise gives what the
/// sub-condition gives (here for a sub-condition whose outcome does not depend on the
/// choices made before it, such as one without labels)
pub proof fn lemma_and_checks_after(
    c: SpecCond,
    d: SpecCond,
    phones: Seq<SpecPhone>,
    phone_index: int,
    input_len: int,
    ch: SpecChoices,
    dir: Direction,
)
    requires
        c.and is None,
        forall|c2: SpecChoices| #[trigger] same_kind(spec_eval(d, phones, phone_index, input_len, c2, dir), spec_eval(d, phones, phone_index, input_len, ch, dir)),
    ensures
        same_kind(
            spec_eval(SpecCond { and: Some((AndType::And, Box::new(d))), ..c }, phones, phone_index, input_len, ch, dir),
            match spec_eval(c, phones, phone_index, input_len, ch, dir) {
                SpecOutcome::Found(_, _) => spec_eval(d, phones, phone_index, input_len, ch, dir),
                o => o,
            },
        ),
{
    let c2 = SpecCond { and: Some((AndType::And, Box::new(d))), ..c };
    let env = spec_cond_env(spec_new_phones(phones, phone_index, dir), input_len);
    let acc = Box::new(SpecGoal::Accept);
    let k = spec_eval(d, phones, phone_index, input_len, ch, dir);
    let chain1 = SpecGoal::Chain { cond: c, then: acc };
    let chain2 = SpecGoal::Chain { cond: c2, then: acc };
    assert forall|n: usize, cc: SpecChoices| #![trigger spec_goal(env, chain1, n, cc)]
        !(spec_goal(env, chain1, n, cc) is Error) && shaped(spec_goal(env, chain2, n, cc), spec_goal(env, chain1, n, cc), k) by {
        assert(spec_goal(env, SpecGoal::Accept, n, cc) == SpecOutcome::Found(n, cc));
        assert(spec_goal(env, chain1, n, cc) == SpecOutcome::Found(n, cc));
        assert(spec_goal(env, chain2, n, cc) == spec_goal(env, SpecGoal::Start { cond: d, then: acc }, n, cc));
        assert(spec_goal(env, SpecGoal::Start { cond: d, then: acc }, n, cc) == spec_eval(d, phones, phone_index, input_len, cc, dir));
        assert(same_kind(spec_eval(d, phones, phone_index, input_len, cc, dir), k));
    }
    match c.kind {
        CondType::Pattern => {
            let right1 = SpecGoal::Right { cond: c, then: acc };
            let right2 = SpecGoal::Right { cond: c2, then: acc };
            assert forall|n: usize, cc: SpecChoices| #![trigger spec_goal(env, right1, n, cc)]
                !(spec_goal(env, right1, n, cc) is Error) && shaped(spec_goal(env, right2, n, cc), spec_goal(env, right1, n, cc), k) by {
                lemma_search_shaped(env, chain1, chain2, k, env.1, seq![c.after], 0, cc);
            }
            lemma_search_shaped(env, right1, right2, k, env.0, seq![c.before], 0, ch);
        },
        CondType::Match => {
            match spec_as_phones(c.before, ch) {
                None => {},
                Some(ps) => {
                    let ex1 = SpecGoal::Exact { len: ps.len(), then: Box::new(chain1) };
                    let ex2 = SpecGoal::Exact { len: ps.len(), then: Box::new(chain2) };
                    assert forall|n: usize, cc: SpecChoices| #![trigger spec_goal(env, ex1, n, cc)]
                        !(spec_goal(env, ex1, n, cc) is Error) && shaped(spec_goal(env, ex2, n, cc), spec_goal(env, ex1, n, cc), k) by {
                        assert(spec_goal(env, SpecGoal::Accept, n, cc) == SpecOutcome::Found(n, cc));
        assert(spec_goal(env, chain1, n, cc) == SpecOutcome::Found(n, cc));
                    }
                    lemma_search_shaped(env, ex1, ex2, k, spec_new_phones(ps, 0, Direction::Ltr), seq![c.after], 0, ch);
                },
            }
        },
    }
}

/// Whether a rule token carries no label, nor does any token inside it
pub open spec fn tok_unlabelled(t: SpecRuleToken) -> bool
    decreases t,
{
    match t {
        SpecRuleToken::Phone(_) => true,
        SpecRuleToken::Any { id } => id is None,
        SpecRuleToken::Gap { id } => id is None,
        SpecRuleToken::OptionalScope { id, content } => id is None && toks_unlabelled(content),
        SpecRuleToken::SelectionScope { id, options } => id is None
            && forall|j: int| 0 <= j < options.len() ==> toks_unlabelled(#[trigger] options[j]),
    }
}

/// Whether no token of a list carries a label
pub open spec fn toks_unlabelled(s: Seq<SpecRuleToken>) -> bool
    decreases s,
{
    forall|i: int| 0 <= i < s.len() ==> tok_unlabelled(#[trigger] s[i])
}

/// Whether no token of a condition or of its sub-conditions carries a label
pub open spec fn cond_unlabelled(c: SpecCond) -> bool
    decreases c,
{
    &&& toks_unlabelled(c.before)
    &&& toks_unlabelled(c.after)
    &&& match c.and {
        Some((_, inner)) => cond_unlabelled(*inner),
        None => true,
    }
}

/// Whether a goal checks only conditions without labels
pub open spec fn goal_unlabelled(g: SpecGoal) -> bool
    decreases g,
{
    match g {
        SpecGoal::Accept => true,
        SpecGoal::Start { cond, then } => cond_unlabelled(cond) && goal_unlabelled(*then),
        SpecGoal::Right { cond, then } => cond_unlabelled(cond) && goal_unlabelled(*then),
        SpecGoal::Chain { cond, then } => cond_unlabelled(cond) && goal_unlabelled(*then),
        SpecGoal::Exact { then, .. } => goal_unlabelled(*then),
        _ => false,
    }
}

/// Whether no list of a stack holds a token with a label
pub open spec fn frames_unlabelled(f: Seq<Seq<SpecRuleToken>>) -> bool {
    forall|i: int| 0 <= i < f.len() ==> toks_unlabelled(#[trigger] f[i])
}

proof fn lemma_or_else_same_kind(a1: SpecOutcome, b1: SpecOutcome, a2: SpecOutcome, b2: SpecOutcome)
    requires
        same_kind(a1, a2),
        same_kind(b1, b2),
    ensures
        same_kind(or_else(a1, b1), or_else(a2, b2)),
{
}

/// Tokens without labels stand for the same phones whatever the choices
proof fn lemma_as_phones_unlabelled(toks: Seq<SpecRuleToken>, ch1: SpecChoices, ch2: SpecChoices)
    requires
        toks_unlabelled(toks),
    ensures
        spec_as_phones(toks, ch1) == spec_as_phones(toks, ch2),
    decreases toks.len(),
{
    if toks.len() > 0 {
        assert(tok_unlabelled(toks[0]));
        assert forall|i: int| 0 <= i < toks.drop_first().len() implies tok_unlabelled(#[trigger] toks.drop_first()[i]) by {
            assert(toks.drop_first()[i] == toks[i + 1]);
        }
        lemma_as_phones_unlabelled(toks.drop_first(), ch1, ch2);
    }
}

/// A search without labels, in its tokens and in its goal, ends the same way whatever
/// the choices it starts from
proof fn lemma_search_unlabelled(
    env: (SpecPhones, SpecPhones),
    goal: SpecGoal,
    r: SpecPhones,
    frames: Seq<Seq<SpecRuleToken>>,
    n: usize,
    ch1: SpecChoices,
    ch2: SpecChoices,
)
    requires
        goal_unlabelled(goal),
        frames_unlabelled(frames),
    ensures
        same_kind(spec_search(env, goal, r, frames, n, ch1), spec_search(env, goal, r, frames, n, ch2)),
    decreases goal_rank(goal), frames_size(frames) + 1, frames.len(), 0nat,
{
    if frames.len() == 0 {
        lemma_goal_unlabelled(env, goal, n, ch1, ch2);
    } else if frames[0].len() == 0 {
        assert forall|i: int| 0 <= i < frames.drop_first().len() implies toks_unlabelled(#[trigger] frames.drop_first()[i]) by {
            assert(frames.drop_first()[i] == frames[i + 1]);
        }
        lemma_search_unlabelled(env, goal, r, frames.drop_first(), n, ch1, ch2);
    } else {
        let top = frames[0];
        let t = next_tok(top, r.dir);
        let rest = rest_toks(top, r.dir);
        let fr = frames.update(0, rest);
        lemma_rest_toks_size(top, r.dir);
        lemma_frames_size_update(frames, rest);
        assert(toks_unlabelled(top));
        assert(tok_unlabelled(t)) by {
            if r.dir is Ltr {
                assert(tok_unlabelled(top[0]));
            } else {
                assert(tok_unlabelled(top[top.len() - 1]));
            }
        }
        assert(toks_unlabelled(rest)) by {
            assert forall|i: int| 0 <= i < rest.len() implies tok_unlabelled(#[trigger] rest[i]) by {
                if r.dir is Ltr {
                    assert(rest[i] == top[i + 1]);
                } else {
                    assert(rest[i] == top[i]);
                }
            }
        }
        assert(frames_unlabelled(fr)) by {
            assert forall|i: int| 0 <= i < fr.len() implies toks_unlabelled(#[trigger] fr[i]) by {
                if i > 0 {
                    assert(fr[i] == frames[i]);
                }
            }
        }
        match t {
            SpecRuleToken::Phone(p) => {
                if n < usize::MAX {
                    lemma_search_unlabelled(env, goal, r, fr, (n + 1) as usize, ch1, ch2);
                }
            },
            SpecRuleToken::Any { id } => {
                if n < usize::MAX {
                    lemma_search_unlabelled(env, goal, r, fr, (n + 1) as usize, ch1, ch2);
                }
            },
            SpecRuleToken::OptionalScope { id, content } => {
                lemma_frames_size_push(fr, content);
                let inner = seq![content] + fr;
                assert(frames_unlabelled(inner)) by {
                    assert forall|i: int| 0 <= i < inner.len() implies toks_unlabelled(#[trigger] inner[i]) by {
                        if i > 0 {
                            assert(inner[i] == fr[i - 1]);
                        }
                    }
                }
                lemma_search_unlabelled(env, goal, r, inner, n, ch1, ch2);
                lemma_search_unlabelled(env, goal, r, fr, n, ch1, ch2);
                lemma_or_else_same_kind(
                    spec_search(env, goal, r, inner, n, ch1),
                    spec_search(env, goal, r, fr, n, ch1),
                    spec_search(env, goal, r, inner, n, ch2),
                    spec_search(env, goal, r, fr, n, ch2),
                );
            },
            SpecRuleToken::SelectionScope { id, options } => {
                assert(options.subrange(0, options.len() as int) =~= options);
                lemma_select_unlabelled(env, goal, r, fr, options, 0, n, ch1, ch2);
            },
            SpecRuleToken::Gap { id } => {
                lemma_gap_unlabelled(env, goal, r, fr, 0, n, ch1, ch2);
            },
        }
    }
}

proof fn lemma_select_unlabelled(
    env: (SpecPhones, SpecPhones),
    goal: SpecGoal,
    r: SpecPhones,
    fr: Seq<Seq<SpecRuleToken>>,
    options: Seq<Seq<SpecRuleToken>>,
    j: nat,
    n: usize,
    ch1: SpecChoices,
    ch2: SpecChoices,
)
    requires
        goal_unlabelled(goal),
        frames_unlabelled(fr),
        forall|k: int| 0 <= k < options.len() ==> toks_unlabelled(#[trigger] options[k]),
    ensures
        same_kind(
            spec_select(env, goal, r, fr, options, None, j, n, ch1),
            spec_select(env, goal, r, fr, options, None, j, n, ch2),
        ),
    decreases goal_rank(goal), frames_size(fr) + opts_size_from(options, j as int) + 1, fr.len() + 2, options.len() - j,
{
    if !(j >= options.len() || j > usize::MAX) {
        lemma_opts_size_from(options, j as int);
        lemma_frames_size_push(fr, options[j as int]);
        let inner = seq![options[j as int]] + fr;
        assert(frames_unlabelled(inner)) by {
            assert forall|i: int| 0 <= i < inner.len() implies toks_unlabelled(#[trigger] inner[i]) by {
                if i > 0 {
                    assert(inner[i] == fr[i - 1]);
                }
            }
        }
        lemma_search_unlabelled(env, goal, r, inner, n, ch1, ch2);
        lemma_select_unlabelled(env, goal, r, fr, options, j + 1, n, ch1, ch2);
        lemma_or_else_same_kind(
            spec_search(env, goal, r, inner, n, ch1),
            spec_select(env, goal, r, fr, options, None, j + 1, n, ch1),
            spec_search(env, goal, r, inner, n, ch2),
            spec_select(env, goal, r, fr, options, None, j + 1, n, ch2),
        );
    }
}

proof fn lemma_gap_unlabelled(
    env: (SpecPhones, SpecPhones),
    goal: SpecGoal,
    r: SpecPhones,
    fr: Seq<Seq<SpecRuleToken>>,
    len: nat,
    n: usize,
    ch1: SpecChoices,
    ch2: SpecChoices,
)
    requires
        goal_unlabelled(goal),
        frames_unlabelled(fr),
    ensures
        same_kind(
            spec_gap(env, goal, r, fr, None, None, len, n, ch1),
            spec_gap(env, goal, r, fr, None, None, len, n, ch2),
        ),
    decreases goal_rank(goal), frames_size(fr) + 1, fr.len() + 1, r.phones.len() + 1 - len,
{
    if !(n + len > usize::MAX || len > r.phones.len() + 1) {
        lemma_search_unlabelled(env, goal, r, fr, (n + len) as usize, ch1, ch2);
        let more = len <= r.phones.len() && !spec_is_bound(spec_read(r, n + len));
        if more {
            lemma_gap_unlabelled(env, goal, r, fr, len + 1, n, ch1, ch2);
        }
        lemma_or_else_same_kind(
            spec_search(env, goal, r, fr, (n + len) as usize, ch1),
            if more { spec_gap(env, goal, r, fr, None, None, len + 1, n, ch1) } else { SpecOutcome::Fail },
            spec_search(env, goal, r, fr, (n + len) as usize, ch2),
            if more { spec_gap(env, goal, r, fr, None, None, len + 1, n, ch2) } else { SpecOutcome::Fail },
        );
    }
}

/// A goal without labels holds, fails or errs the same way whatever the choices
proof fn lemma_goal_unlabelled(env: (SpecPhones, SpecPhones), goal: SpecGoal, n: usize, ch1: SpecChoices, ch2: SpecChoices)
    requires
        goal_unlabelled(goal),
    ensures
        same_kind(spec_goal(env, goal, n, ch1), spec_goal(env, goal, n, ch2)),
    decreases goal_rank(goal), 0nat, 0nat, 0nat,
{
    match goal {
        SpecGoal::Accept => {},
        SpecGoal::Start { cond, then } => {
            assert(toks_unlabelled(cond.before));
            match cond.kind {
                CondType::Pattern => {
                    let before = seq![cond.before];
                    assert(frames_unlabelled(before)) by {
                        assert forall|i: int| 0 <= i < before.len() implies toks_unlabelled(#[trigger] before[i]) by {
                            assert(before[i] == cond.before);
                        }
                    }
                    lemma_search_unlabelled(env, SpecGoal::Right { cond, then }, env.0, before, 0, ch1, ch2);
                },
                CondType::Match => {
                    lemma_as_phones_unlabelled(cond.before, ch1, ch2);
                    match spec_as_phones(cond.before, ch1) {
                        None => {},
                        Some(ps) => {
                            let g = SpecGoal::Chain { cond, then };
                            assert(goal_rank(g) == goal_rank(*then) + 4 * cond_rank(cond));
                            assert(goal_rank(SpecGoal::Exact { len: ps.len(), then: Box::new(g) }) == goal_rank(g) + 1);
                            assert(goal_unlabelled(g));
                            assert(goal_unlabelled(SpecGoal::Exact { len: ps.len(), then: Box::new(g) }));
                            let after = seq![cond.after];
                            assert(frames_unlabelled(after)) by {
                                assert forall|i: int| 0 <= i < after.len() implies toks_unlabelled(#[trigger] after[i]) by {
                                    assert(after[i] == cond.after);
                                }
                            }
                            lemma_search_unlabelled(
                                env,
                                SpecGoal::Exact { len: ps.len(), then: Box::new(g) },
                                spec_new_phones(ps, 0, Direction::Ltr),
                                after,
                                0,
                                ch1,
                                ch2,
                            );
                        },
                    }
                },
            }
        },
        SpecGoal::Right { cond, then } => {
            let after = seq![cond.after];
            assert(frames_unlabelled(after)) by {
                assert forall|i: int| 0 <= i < after.len() implies toks_unlabelled(#[trigger] after[i]) by {
                    assert(after[i] == cond.after);
                }
            }
            lemma_search_unlabelled(env, SpecGoal::Chain { cond, then }, env.1, after, 0, ch1, ch2);
        },
        SpecGoal::Exact { len, then } => {
            lemma_goal_unlabelled(env, *then, n, ch1, ch2);
        },
        SpecGoal::Chain { cond, then } => match cond.and {
            None => lemma_goal_unlabelled(env, *then, n, ch1, ch2),
            Some((AndType::And, inner)) => lemma_goal_unlabelled(env, SpecGoal::Start { cond: *inner, then }, n, ch1, ch2),
            Some((AndType::AndNot, inner)) => {
                assert(cond_unlabelled(*inner));
                assert(goal_unlabelled(SpecGoal::Accept));
                assert(goal_unlabelled(SpecGoal::Start { cond: *inner, then: Box::new(SpecGoal::Accept) }));
                lemma_goal_unlabelled(env, SpecGoal::Start { cond: *inner, then: Box::new(SpecGoal::Accept) }, n, ch1, ch2);
                lemma_goal_unlabelled(env, *then, n, ch1, ch2);
            },
        },
        _ => {},
    }
}

/// Joining a sub-condition without labels by `&` (as `set_and` does to a condition
/// without one) makes the condition short-circuit: evaluated from any choices, it fails
/// where the condition alone fails, gives the error where the condition alone gives one,
/// and otherwise gives what evaluating the sub-condition alone gives
pub proof fn lemma_and_short_circuit(
    c: SpecCond,
    d: SpecCond,
    phones: Seq<SpecPhone>,
    phone_index: int,
    input_len: int,
    ch: SpecChoices,
    dir: Direction,
)
    requires
        c.and is None,
        cond_unlabelled(d),
    ensures
        same_kind(
            spec_eval(SpecCond { and: Some((AndType::And, Box::new(d))), ..c }, phones, phone_index, input_len, ch, dir),
            match spec_eval(c, phones, phone_index, input_len, ch, dir) {
                SpecOutcome::Found(_, _) => spec_eval(d, phones, phone_index, input_len, ch, dir),
                o => o,
            },
        ),
{
    let env = spec_cond_env(spec_new_phones(phones, phone_index, dir), input_len);
    let g = SpecGoal::Start { cond: d, then: Box::new(SpecGoal::Accept) };
    assert(goal_unlabelled(SpecGoal::Accept));
    assert(goal_unlabelled(g));
    assert forall|c2: SpecChoices| #[trigger] same_kind(spec_eval(d, phones, phone_index, input_len, c2, dir), spec_eval(d, phones, phone_index, input_len, ch, dir)) by {
        lemma_goal_unlabelled(env, g, 0, c2, ch);
    }
    lemma_and_checks_after(c, d, phones, phone_index, input_len, ch, dir);
}

/// The readers of a condition's sides read outward from the input: where the input covers
/// the phones from `lo` up to `hi` (read from index `s`, `n` phones long, left-to-right or
/// right-to-left), the left side reads the phones at `lo - 1`, `lo - 2`, ... and the right
/// side the phones at `hi`, `hi + 1`, ..., boundaries beyond the ends of the list
pub proof fn lemma_cond_env_reads_outward(ps: Seq<SpecPhone>, s: int, n: int, dir: Direction, k: int)
    requires
        0 <= n,
        0 <= k,
        match dir {
            Direction::Ltr => 0 <= s && s + n <= ps.len(),
            Direction::Rtl => 0 <= s < ps.len() && n <= s + 1,
        },
    ensures
        ({
            let input = SpecPhones { phones: ps, index: Some(s), dir };
            let lo = if dir is Ltr { s } else { s + 1 - n };
            let hi = if dir is Ltr { s + n } else { s + 1 };
            &&& forall|j: int| 0 <= j < n ==> #[trigger] spec_read(input, j) == ps[if dir is Ltr { s + j } else { s - j }]
            &&& hi - lo == n
            &&& spec_read(spec_cond_env(input, n).0, k) == phone_at(ps, lo - 1 - k)
            &&& spec_read(spec_cond_env(input, n).1, k) == phone_at(ps, hi + k)
        }),
{
}

/// What checking the condition `c` and then `then` gives for a match of `n` phones
#[verifier::opaque]
pub open spec fn cond_outcome(env: (SpecPhones, SpecPhones), c: SpecCond, then: Box<SpecGoal>, n: usize, ch: SpecChoices) -> SpecOutcome {
    spec_goal(env, SpecGoal::Start { cond: c, then }, n, ch)
}

/// A rule holds around a match of its input when any one of its conditions holds, not only
/// the first: the conditions from the `k`th on fail together exactly when each of them fails,
/// and otherwise the first of them that does not fail decides
pub proof fn lemma_any_condition_holds(
    env: (SpecPhones, SpecPhones),
    conds: Seq<SpecCond>,
    k: nat,
    then: Box<SpecGoal>,
    n: usize,
    ch: SpecChoices,
)
    ensures
        spec_goal(env, SpecGoal::AnyCond { conds, k, then }, n, ch) is Fail
            <==> forall|i: int| k <= i < conds.len() ==> #[trigger] cond_outcome(env, conds[i], then, n, ch) is Fail,
        forall|i: int| k <= i < conds.len()
            && !(#[trigger] cond_outcome(env, conds[i], then, n, ch) is Fail)
            && (forall|j: int| k <= j < i ==> #[trigger] cond_outcome(env, conds[j], then, n, ch) is Fail)
            ==> spec_goal(env, SpecGoal::AnyCond { conds, k, then }, n, ch) == cond_outcome(env, conds[i], then, n, ch),
    decreases conds.len() - k,
{
    if k < conds.len() {
        lemma_any_condition_holds(env, conds, k + 1, then, n, ch);
        let first = cond_outcome(env, conds[k as int], then, n, ch);
        assert(spec_goal(env, SpecGoal::AnyCond { conds, k, then }, n, ch)
            == or_else(first, spec_goal(env, SpecGoal::AnyCond { conds, k: k + 1, then }, n, ch))) by {
            reveal(cond_outcome);
        }
        if !(first is Fail) {
            assert forall|i: int| k <= i < conds.len()
                && !(#[trigger] cond_outcome(env, conds[i], then, n, ch) is Fail)
                && (forall|j: int| k <= j < i ==> #[trigger] cond_outcome(env, conds[j], then, n, ch) is Fail)
                implies i == k by {
                if i > k {
                    assert(cond_outcome(env, conds[k as int], then, n, ch) is Fail);
                }
            }
        }
    }
}

/// A rule with conditions holds around a match of its input exactly when one of its
/// conditions (any of them) holds there with no anti-condition matching: it fails when each
/// condition, followed by the check of the anti-conditions, fails around the input, and
/// otherwise the first condition that does not fail decides
pub proof fn lemma_rule_any_condition(
    env: (SpecPhones, SpecPhones),
    conds: Seq<SpecCond>,
    anti: Seq<SpecCond>,
    input: SpecPhones,
    n: usize,
    ch: SpecChoices,
)
    requires
        conds.len() > 0,
    ensures
        ({
            let around = spec_cond_env(input, n as int);
            let rest = Box::new(SpecGoal::NoAnti { anti, k: 0 });
            let result = spec_goal(env, SpecGoal::Rule { conds, anti, input }, n, ch);
            &&& result is Fail <==> forall|i: int| 0 <= i < conds.len() ==> #[trigger] cond_outcome(around, conds[i], rest, n, ch) is Fail
            &&& forall|i: int| 0 <= i < conds.len()
                && !(#[trigger] cond_outcome(around, conds[i], rest, n, ch) is Fail)
                && (forall|j: int| 0 <= j < i ==> #[trigger] cond_outcome(around, conds[j], rest, n, ch) is Fail)
                ==> result == cond_outcome(around, conds[i], rest, n, ch)
        }),
{
    let around = spec_cond_env(input, n as int);
    let rest = Box::new(SpecGoal::NoAnti { anti, k: 0 });
    assert(spec_goal(env, SpecGoal::Rule { conds, anti, input }, n, ch)
        == spec_goal(around, SpecGoal::AnyCond { conds, k: 0, then: rest }, n, ch));
    lemma_any_condition_holds(around, conds, 0, rest, n, ch);
}

/// A match is rejected when any one of the anti-conditions matches around it, not only the
/// first: with none of the anti-conditions from the `k`th on matching, the match stands with
/// its length and choices, and once one of them matches (the ones before it failing) it is
/// rejected
pub proof fn lemma_any_anti_condition_rejects(
    env: (SpecPhones, SpecPhones),
    anti: Seq<SpecCond>,
    k: nat,
    n: usize,
    ch: SpecChoices,
)
    ensures
        (forall|i: int| #![trigger anti[i]] k <= i < anti.len()
            ==> spec_goal(env, SpecGoal::Start { cond: anti[i], then: Box::new(SpecGoal::Accept) }, n, ch) is Fail)
            ==> spec_goal(env, SpecGoal::NoAnti { anti, k }, n, ch) == SpecOutcome::Found(n, ch),
        forall|i: int| #![trigger anti[i]] k <= i < anti.len()
            && spec_goal(env, SpecGoal::Start { cond: anti[i], then: Box::new(SpecGoal::Accept) }, n, ch) is Found
            && (forall|j: int| #![trigger anti[j]] k <= j < i
                ==> spec_goal(env, SpecGoal::Start { cond: anti[j], then: Box::new(SpecGoal::Accept) }, n, ch) is Fail)
            ==> spec_goal(env, SpecGoal::NoAnti { anti, k }, n, ch) is Fail,
    decreases anti.len() - k,
{
    if k < anti.len() {
        lemma_any_anti_condition_rejects(env, anti, k + 1, n, ch);
        let first = spec_goal(env, SpecGoal::Start { cond: anti[k as int], then: Box::new(SpecGoal::Accept) }, n, ch);
        if first is Fail {
            assert(spec_goal(env, SpecGoal::NoAnti { anti, k }, n, ch) == spec_goal(env, SpecGoal::NoAnti { anti, k: k + 1 }, n, ch));
        }
    }
}

/// A list of phone tokens, one for each phone
pub open spec fn literal_tokens(ps: Seq<SpecPhone>) -> Seq<SpecRuleToken> {
    ps.map_values(|p: SpecPhone| SpecRuleToken::Phone(p))
}

/// The phone of a list that is read `i`th in direction `dir`
pub open spec fn literal_at(ps: Seq<SpecPhone>, dir: Direction, i: int) -> SpecPhone {
    match dir {
        Direction::Ltr => ps[i],
        Direction::Rtl => ps[ps.len() - 1 - i],
    }
}

/// What is left of a list of literal phones after `k` of them were read in direction `dir`
pub open spec fn literal_rest(ps: Seq<SpecPhone>, dir: Direction, k: int) -> Seq<SpecRuleToken> {
    match dir {
        Direction::Ltr => literal_tokens(ps).subrange(k, ps.len() as int),
        Direction::Rtl => literal_tokens(ps).subrange(0, ps.len() - k),
    }
}

proof fn lemma_literal_rest(env: (SpecPhones, SpecPhones), r: SpecPhones, ps: Seq<SpecPhone>, k: int, ch: SpecChoices)
    requires
        0 <= k <= ps.len(),
        ps.len() < usize::MAX,
    ensures
        spec_search(env, SpecGoal::Accept, r, seq![literal_rest(ps, r.dir, k)], k as usize, ch) == if (forall|i: int|
            k <= i < ps.len() ==> spec_phones_match(#[trigger] literal_at(ps, r.dir, i), spec_read(r, i))) {
            SpecOutcome::Found(ps.len() as usize, ch)
        } else {
            SpecOutcome::Fail
        },
    decreases ps.len() - k,
{
    let top = literal_rest(ps, r.dir, k);
    let frames = seq![top];
    assert(top.len() == ps.len() - k);
    if k == ps.len() {
        assert(frames.drop_first() =~= Seq::<Seq<SpecRuleToken>>::empty());
        assert(spec_goal(env, SpecGoal::Accept, k as usize, ch) == SpecOutcome::Found(k as usize, ch));
        assert(spec_search(env, SpecGoal::Accept, r, Seq::<Seq<SpecRuleToken>>::empty(), k as usize, ch) == SpecOutcome::Found(k as usize, ch));
        assert(spec_search(env, SpecGoal::Accept, r, frames, k as usize, ch) == SpecOutcome::Found(k as usize, ch));
    } else {
        let t = next_tok(top, r.dir);
        assert(t == SpecRuleToken::Phone(literal_at(ps, r.dir, k)));
        assert(rest_toks(top, r.dir) =~= literal_rest(ps, r.dir, k + 1));
        assert(frames.update(0, rest_toks(top, r.dir)) =~= seq![literal_rest(ps, r.dir, k + 1)]);
        lemma_literal_rest(env, r, ps, k + 1, ch);
        assert(spec_search(env, SpecGoal::Accept, r, frames, k as usize, ch) == if spec_phones_match(literal_at(ps, r.dir, k), spec_read(r, k)) {
            spec_search(env, SpecGoal::Accept, r, seq![literal_rest(ps, r.dir, k + 1)], (k + 1) as usize, ch)
        } else {
            SpecOutcome::Fail
        });
        if spec_phones_match(literal_at(ps, r.dir, k), spec_read(r, k)) {
            assert((forall|i: int| k <= i < ps.len() ==> spec_phones_match(#[trigger] literal_at(ps, r.dir, i), spec_read(r, i)))
                == (forall|i: int| k + 1 <= i < ps.len() ==> spec_phones_match(#[trigger] literal_at(ps, r.dir, i), spec_read(r, i))));
        } else {
            assert(!(forall|i: int| k <= i < ps.len() ==> spec_phones_match(#[trigger] literal_at(ps, r.dir, i), spec_read(r, i))));
        }
    }
}

/// Literal phones match exactly where each of them matches the phone read in its place:
/// a list of phone tokens matches, with its whole length and the choices as they were,
/// if and only if each phone of it matches the phone read the same number of steps from
/// the reader's start in the reader's direction
pub proof fn lemma_literal_match(env: (SpecPhones, SpecPhones), r: SpecPhones, ps: Seq<SpecPhone>, ch: SpecChoices)
    requires
        ps.len() < usize::MAX,
    ensures
        spec_search(env, SpecGoal::Accept, r, seq![literal_tokens(ps)], 0, ch) == if (forall|i: int|
            0 <= i < ps.len() ==> spec_phones_match(#[trigger] literal_at(ps, r.dir, i), spec_read(r, i))) {
            SpecOutcome::Found(ps.len() as usize, ch)
        } else {
            SpecOutcome::Fail
        },
{
    assert(literal_rest(ps, r.dir, 0) =~= literal_tokens(ps));
    lemma_literal_rest(env, r, ps, 0, ch);
}

/// An unlabelled wildcard on its own matches exactly one phone that is not a word boundary:
/// it matches with length one and the choices as they were where the phone read first is
/// not a boundary, and fails where it is
pub proof fn lemma_any_match(env: (SpecPhones, SpecPhones), r: SpecPhones, ch: SpecChoices)
    ensures
        spec_search(env, SpecGoal::Accept, r, seq![seq![SpecRuleToken::Any { id: None }]], 0, ch) == if !spec_is_bound(spec_read(r, 0)) {
            SpecOutcome::Found(1, ch)
        } else {
            SpecOutcome::Fail
        },
{
    let frames = seq![seq![SpecRuleToken::Any { id: None }]];
    let fr = frames.update(0, rest_toks(frames[0], r.dir));
    assert(next_tok(frames[0], r.dir) == SpecRuleToken::Any { id: None });
    assert(rest_toks(frames[0], r.dir) =~= Seq::<SpecRuleToken>::empty());
    assert(fr.drop_first() =~= Seq::<Seq<SpecRuleToken>>::empty());
    assert(spec_search(env, SpecGoal::Accept, r, Seq::<Seq<SpecRuleToken>>::empty(), 1, ch) == SpecOutcome::Found(1, ch)) by {
        assert(spec_goal(env, SpecGoal::Accept, 1, ch) == SpecOutcome::Found(1, ch));
    }
    assert(spec_search(env, SpecGoal::Accept, r, fr, 1, ch) == spec_search(env, SpecGoal::Accept, r, fr.drop_first(), 1, ch));
}

/// What must hold once a list of tokens has matched, for the match to count
pub enum Goal<'g, 's> {
    /// Nothing more
    Accept,
    /// A condition: its left side, then its right side, then its sub-conditions, then `then`
    Start { cond: &'g Cond<'s>, then: &'g Goal<'g, 's> },
    /// The right side of a condition whose left side matched, then its sub-conditions, then `then`
    Right { cond: &'g Cond<'s>, then: &'g Goal<'g, 's> },
    /// The match is `len` phones long, then `then`
    Exact { len: usize, then: &'g Goal<'g, 's> },
    /// The sub-conditions of a condition whose sides matched, then `then`
    Chain { cond: &'g Cond<'s>, then: &'g Goal<'g, 's> },
    /// No anti-condition from the `k`th on matches
    NoAnti { anti: &'g [Cond<'s>], k: usize },
    /// One of the conditions from the `k`th on holds, then `then`
    AnyCond { conds: &'g [Cond<'s>], k: usize, then: &'g Goal<'g, 's> },
    /// The conditions of a rule hold around the input that `input` read and no anti-condition matches
    Rule { conds: &'g [Cond<'s>], anti: &'g [Cond<'s>], input: &'g Phones<'g, 's> },
}

/// The mathematical value of a goal
pub open spec fn goal_view(g: Goal) -> SpecGoal
    decreases g,
{
    match g {
        Goal::Accept => SpecGoal::Accept,
        Goal::Start { cond, then } => SpecGoal::Start { cond: cond_view(*cond), then: Box::new(goal_view(*then)) },
        Goal::Right { cond, then } => SpecGoal::Right { cond: cond_view(*cond), then: Box::new(goal_view(*then)) },
        Goal::Exact { len, then } => SpecGoal::Exact { len: len as nat, then: Box::new(goal_view(*then)) },
        Goal::Chain { cond, then } => SpecGoal::Chain { cond: cond_view(*cond), then: Box::new(goal_view(*then)) },
        Goal::NoAnti { anti, k } => SpecGoal::NoAnti { anti: conds_view(anti@), k: k as nat },
        Goal::AnyCond { conds, k, then } => SpecGoal::AnyCond { conds: conds_view(conds@), k: k as nat, then: Box::new(goal_view(*then)) },
        Goal::Rule { conds, anti, input } => SpecGoal::Rule { conds: conds_view(conds@), anti: conds_view(anti@), input: input@ },
    }
}

/// A stack of token lists still to match: the tokens of `tokens` from `lo` up to `hi`,
/// then the rest
pub enum Frames<'f, 's> {
    Done,
    Then { tokens: &'f [RuleToken<'s>], lo: usize, hi: usize, rest: &'f Frames<'f, 's> },
}

/// The token lists of a stack
pub open spec fn frames_view(f: Frames) -> Seq<Seq<SpecRuleToken>>
    decreases f,
{
    match f {
        Frames::Done => Seq::empty(),
        Frames::Then { tokens, lo, hi, rest } => seq![tokens_view(tokens@).subrange(lo as int, hi as int)] + frames_view(*rest),
    }
}

/// Whether each range of a stack lies within its list
pub open spec fn frames_wf(f: Frames) -> bool
    decreases f,
{
    match f {
        Frames::Done => true,
        Frames::Then { tokens, lo, hi, rest } => lo <= hi <= tokens@.len() && frames_wf(*rest),
    }
}

/// The result of a search
pub enum Outcome<'s> {
    Fail,
    Found(usize, Choices<'s>),
    Error,
}

/// The mathematical value of the result of a search
pub open spec fn outcome_view(o: Outcome) -> SpecOutcome {
    match o {
        Outcome::Fail => SpecOutcome::Fail,
        Outcome::Found(n, c) => SpecOutcome::Found(n, c@),
        Outcome::Error => SpecOutcome::Error,
    }
}

impl<'s> Outcome<'s> {
    fn is_fail(&self) -> (r: bool)
        ensures
            r == (outcome_view(*self) is Fail),
    {
        match self {
            Outcome::Fail => true,
            _ => false,
        }
    }
}

/// Finds the first match of a stack of token lists against the phones read by `r`
/// after `n` phones for which the goal holds
fn search<'s>(
    env: &CondPhoneInput<'_, 's>,
    goal: &Goal<'_, 's>,
    r: &Phones<'_, 's>,
    frames: &Frames<'_, 's>,
    n: usize,
    ch: Choices<'s>,
) -> (o: Outcome<'s>)
    requires
        frames_wf(*frames),
    ensures
        outcome_view(o) == spec_search(env_view(*env), goal_view(*goal), r@, frames_view(*frames), n, ch@),
    decreases goal_rank(goal_view(*goal)), frames_size(frames_view(*frames)) + 1, frames_view(*frames).len(), 0nat,
{
    let ghost fv = frames_view(*frames);
    match frames {
        Frames::Done => {
            match check_goal(env, goal, n, ch) {
                Outcome::Found(_, c) => Outcome::Found(n, c),
                o => o,
            }
        },
        Frames::Then { tokens, lo, hi, rest } => {
            let lo = *lo;
            let hi = *hi;
            let ghost tv = tokens_view(tokens@);
            proof {
                lemma_tokens_view_len(tokens@);
                assert(fv[0] == tv.subrange(lo as int, hi as int));
                assert(fv.drop_first() == frames_view(**rest));
            }
            if lo >= hi {
                return search(env, goal, r, rest, n, ch);
            }
            let dir = r.direction();
            let (t, fr) = match dir {
                Direction::Ltr => (&tokens[lo], Frames::Then { tokens, lo: lo + 1, hi, rest }),
                Direction::Rtl => (&tokens[hi - 1], Frames::Then { tokens, lo, hi: hi - 1, rest }),
            };
            let ghost top = fv[0];
            proof {
                if dir is Ltr {
                    lemma_tokens_view_index(tokens@, lo as int);
                    assert(next_tok(top, dir) == crate::rules::token_view(*t));
                    assert(rest_toks(top, dir) =~= tv.subrange(lo + 1, hi as int));
                } else {
                    lemma_tokens_view_index(tokens@, hi - 1);
                    assert(next_tok(top, dir) == crate::rules::token_view(*t));
                    assert(rest_toks(top, dir) =~= tv.subrange(lo as int, hi - 1));
                }
                assert(frames_view(fr) =~= fv.update(0, rest_toks(top, dir)));
                assert(frames_wf(fr));
                lemma_rest_toks_size(top, dir);
                lemma_frames_size_update(fv, rest_toks(top, dir));
            }
            match t {
                RuleToken::Phone(p) => {
                    if n < usize::MAX && p.matches(&r.get(n)) {
                        search(env, goal, r, &fr, n + 1, ch)
                    } else {
                        Outcome::Fail
                    }
                },
                RuleToken::Any { id } => {
                    if n >= usize::MAX {
                        return Outcome::Fail;
                    }
                    let ph = r.get(n);
                    match id {
                        None => if !ph.is_bound() {
                            search(env, goal, r, &fr, n + 1, ch)
                        } else {
                            Outcome::Fail
                        },
                        Some(id) => match ch.any(id) {
                            Some(c) => if ph.matches(&c) {
                                search(env, goal, r, &fr, n + 1, ch)
                            } else {
                                Outcome::Fail
                            },
                            None => if !ph.is_bound() {
                                let mut ch2 = ch;
                                ch2.choose_any(id, ph);
                                search(env, goal, r, &fr, n + 1, ch2)
                            } else {
                                Outcome::Fail
                            },
                        },
                    }
                },
                RuleToken::OptionalScope { id, content } => {
                    let cs = content.as_slice();
                    let inner = Frames::Then { tokens: cs, lo: 0, hi: content.len(), rest: &fr };
                    proof {
                        lemma_tokens_view_len(content@);
                        assert(cs@ == content@);
                        assert(tokens_view(content@).subrange(0, content@.len() as int) =~= tokens_view(content@));
                        assert(frames_view(inner) =~= seq![tokens_view(content@)] + frames_view(fr));
                        assert(frames_wf(inner));
                        lemma_frames_size_push(frames_view(fr), tokens_view(content@));
                    }
                    match id {
                        None => {
                            let with = search(env, goal, r, &inner, n, ch.duplicate());
                            if !with.is_fail() {
                                return with;
                            }
                            search(env, goal, r, &fr, n, ch)
                        },
                        Some(id) => match ch.optional(id) {
                            Some(true) => search(env, goal, r, &inner, n, ch),
                            Some(false) => search(env, goal, r, &fr, n, ch),
                            None => {
                                let mut ch_in = ch.duplicate();
                                ch_in.choose_optional(id, true);
                                let with = search(env, goal, r, &inner, n, ch_in);
                                if !with.is_fail() {
                                    return with;
                                }
                                let mut ch_out = ch;
                                ch_out.choose_optional(id, false);
                                search(env, goal, r, &fr, n, ch_out)
                            },
                        },
                    }
                },
                RuleToken::SelectionScope { id, options } => {
                    let ghost ov = options_view(options@);
                    proof {
                        lemma_options_view_len(options@);
                        assert(ov.subrange(0, ov.len() as int) =~= ov);
                    }
                    let chosen = match id {
                        Some(id) => ch.selection(id),
                        None => None,
                    };
                    match chosen {
                        Some(j) => {
                            if j < options.len() {
                                let os = options[j].as_slice();
                                let inner = Frames::Then { tokens: os, lo: 0, hi: options[j].len(), rest: &fr };
                                proof {
                                    lemma_options_view_index(options@, j as int);
                                    lemma_tokens_view_len(options@[j as int]@);
                                    assert(os@ == options@[j as int]@);
                                    assert(ov[j as int].subrange(0, ov[j as int].len() as int) =~= ov[j as int]);
                                    assert(frames_view(inner) =~= seq![ov[j as int]] + frames_view(fr));
                                    assert(frames_wf(inner));
                                    lemma_opts_size_elem(ov, j as int);
                                    lemma_frames_size_push(frames_view(fr), ov[j as int]);
                                }
                                search(env, goal, r, &inner, n, ch)
                            } else {
                                Outcome::Fail
                            }
                        },
                        None => {
                            let ghost sid = crate::rules::opt_id_view(*id);
                            let mut j: usize = 0;
                            while j < options.len()
                                invariant
                                    j <= options@.len(),
                                    ov == options_view(options@),
                                    fv == frames_view(*frames),
                                    sid == crate::rules::opt_id_view(*id),
                                    ov.len() == options@.len(),
                                    frames_wf(fr),
                                    spec_search(env_view(*env), goal_view(*goal), r@, fv, n, ch@)
                                        == spec_select(env_view(*env), goal_view(*goal), r@, frames_view(fr), ov, sid, j as nat, n, ch@),
                                    frames_size(fv) == frames_size(frames_view(fr)) + 1 + opts_size(ov),
                                decreases options@.len() - j,
                            {
                                let mut ch2 = ch.duplicate();
                                if let Some(id) = id {
                                    ch2.choose_selection(id, j);
                                }
                                let os = options[j].as_slice();
                                let inner = Frames::Then { tokens: os, lo: 0, hi: options[j].len(), rest: &fr };
                                proof {
                                    lemma_options_view_index(options@, j as int);
                                    lemma_tokens_view_len(options@[j as int]@);
                                    assert(os@ == options@[j as int]@);
                                    assert(ov[j as int].subrange(0, ov[j as int].len() as int) =~= ov[j as int]);
                                    assert(frames_view(inner) =~= seq![ov[j as int]] + frames_view(fr));
                                    assert(frames_wf(inner));
                                    lemma_opts_size_elem(ov, j as int);
                                    lemma_frames_size_push(frames_view(fr), ov[j as int]);
                                }
                                proof {
                                    assert(ch2@ == match sid {
                                        Some(i) => add_selection(ch@, i, j),
                                        None => ch@,
                                    });
                                    assert(spec_select(env_view(*env), goal_view(*goal), r@, frames_view(fr), ov, sid, j as nat, n, ch@)
                                        == or_else(
                                            spec_search(env_view(*env), goal_view(*goal), r@, seq![ov[j as int]] + frames_view(fr), n, ch2@),
                                            spec_select(env_view(*env), goal_view(*goal), r@, frames_view(fr), ov, sid, (j + 1) as nat, n, ch@),
                                        ));
                                }
                                let o = search(env, goal, r, &inner, n, ch2);
                                if !o.is_fail() {
                                    return o;
                                }
                                j += 1;
                            }
                            Outcome::Fail
                        },
                    }
                },
                RuleToken::Gap { id } => {
                    let limit = match id {
                        Some(name) => ch.repetition(name),
                        None => None,
                    };
                    let ghost sname = match id {
                        Some(nm) => Some(nm@),
                        None => None::<Seq<char>>,
                    };
                    let plen = r.list().len();
                    let mut len: usize = 0;
                    loop
                        invariant
                            frames_wf(fr),
                            fv == frames_view(*frames),
                            sname == match *id {
                                Some(nm) => Some(nm@),
                                None => None::<Seq<char>>,
                            },
                            plen == r@.phones.len(),
                            spec_search(env_view(*env), goal_view(*goal), r@, fv, n, ch@)
                                == spec_gap(env_view(*env), goal_view(*goal), r@, frames_view(fr), sname, limit, len as nat, n, ch@),
                            frames_size(fv) == frames_size(frames_view(fr)) + 1,
                            limit == match sname {
                                Some(nm) => assoc(ch@.repetition, nm),
                                None => None::<usize>,
                            },
                        decreases plen + 1 - len,
                    {
                        if n > usize::MAX - len || (len > 0 && len - 1 > plen) {
                            return Outcome::Fail;
                        }
                        if let Some(m) = limit {
                            if len > m {
                                return Outcome::Fail;
                            }
                        }
                        let mut ch2 = ch.duplicate();
                        if let Some(name) = id {
                            if limit.is_none() {
                                ch2.choose_repetition(name, len);
                            }
                        }
                        let o = search(env, goal, r, &fr, n + len, ch2);
                        if !o.is_fail() {
                            return o;
                        }
                        if len <= plen && !r.get(n + len).is_bound() {
                            if len == usize::MAX {
                                assert(spec_gap(env_view(*env), goal_view(*goal), r@, frames_view(fr), sname, limit, (len + 1) as nat, n, ch@) is Fail);
                                return Outcome::Fail;
                            }
                            len += 1;
                        } else {
                            return Outcome::Fail;
                        }
                    }
                },
            }
        },
    }
}

/// Checks whether a goal holds for a match of `n` phones with the choices `ch`
fn check_goal<'s>(env: &CondPhoneInput<'_, 's>, goal: &Goal<'_, 's>, n: usize, ch: Choices<'s>) -> (o: Outcome<'s>)
    ensures
        outcome_view(o) == spec_goal(env_view(*env), goal_view(*goal), n, ch@),
    decreases goal_rank(goal_view(*goal)), 0nat, 0nat, 0nat,
{
    match goal {
        Goal::Accept => Outcome::Found(n, ch),
        Goal::Start { cond, then } => {
            let left = cond.left();
            proof {
                lemma_tokens_view_len(left@);
                assert(tokens_view(left@).subrange(0, left@.len() as int) =~= tokens_view(left@));
            }
            match cond.kind() {
                CondType::Pattern => {
                    let g = Goal::Right { cond, then };
                    let done = Frames::Done;
                    let f = Frames::Then { tokens: left, lo: 0, hi: left.len(), rest: &done };
                    assert(frames_wf(done));
                    assert(frames_view(done) =~= Seq::<Seq<SpecRuleToken>>::empty());
                    assert(frames_view(f) =~= seq![cond_view(**cond).before]);
                    assert(frames_wf(f));
                    search(env, &g, &env.left, &f, 0, ch)
                },
                CondType::Match => {
                    match as_phones(left, &ch) {
                        None => Outcome::Error,
                        Some(ps) => {
                            let right = cond.right();
                            proof {
                                lemma_tokens_view_len(right@);
                                assert(tokens_view(right@).subrange(0, right@.len() as int) =~= tokens_view(right@));
                            }
                            let g2 = Goal::Chain { cond, then };
                            let g = Goal::Exact { len: ps.len(), then: &g2 };
                            proof {
                                assert(goal_rank(goal_view(g2)) == goal_rank(goal_view(**then)) + 4 * cond_rank(cond_view(**cond)));
                                assert(goal_rank(goal_view(g)) == goal_rank(goal_view(g2)) + 1);
                            }
                            let reader = Phones::new(ps.as_slice(), 0, Direction::Ltr);
                            let done = Frames::Done;
                            let f = Frames::Then { tokens: right, lo: 0, hi: right.len(), rest: &done };
            assert(frames_wf(done));
                            assert(frames_view(done) =~= Seq::<Seq<SpecRuleToken>>::empty());
                            assert(frames_view(f) =~= seq![cond_view(**cond).after]);
                            assert(frames_wf(f));
                            search(env, &g, &reader, &f, 0, ch)
                        },
                    }
                },
            }
        },
        Goal::Right { cond, then } => {
            let right = cond.right();
            proof {
                lemma_tokens_view_len(right@);
                assert(tokens_view(right@).subrange(0, right@.len() as int) =~= tokens_view(right@));
            }
            let g = Goal::Chain { cond, then };
            let done = Frames::Done;
            let f = Frames::Then { tokens: right, lo: 0, hi: right.len(), rest: &done };
            assert(frames_wf(done));
            assert(frames_view(done) =~= Seq::<Seq<SpecRuleToken>>::empty());
            assert(frames_view(f) =~= seq![cond_view(**cond).after]);
            assert(frames_wf(f));
            search(env, &g, &env.right, &f, 0, ch)
        },
        Goal::Exact { len, then } => {
            if n == *len {
                check_goal(env, then, n, ch)
            } else {
                Outcome::Fail
            }
        },
        Goal::Chain { cond, then } => {
            match cond.and() {
                None => check_goal(env, then, n, ch),
                Some((AndType::And, inner)) => {
                    let g = Goal::Start { cond: inner, then };
                    check_goal(env, &g, n, ch)
                },
                Some((AndType::AndNot, inner)) => {
                    let accept = Goal::Accept;
                    let g = Goal::Start { cond: inner, then: &accept };
                    match check_goal(env, &g, n, ch.duplicate()) {
                        Outcome::Fail => check_goal(env, then, n, ch),
                        Outcome::Found(_, _) => Outcome::Fail,
                        Outcome::Error => Outcome::Error,
                    }
                },
            }
        },
        Goal::NoAnti { anti, k } => {
            let k = *k;
            if k >= anti.len() {
                Outcome::Found(n, ch)
            } else {
                let accept = Goal::Accept;
                let g = Goal::Start { cond: &anti[k], then: &accept };
                assert(conds_view(anti@)[k as int] == cond_view(anti@[k as int]));
                match check_goal(env, &g, n, ch.duplicate()) {
                    Outcome::Fail => {
                        let g2 = Goal::NoAnti { anti, k: k + 1 };
                        check_goal(env, &g2, n, ch)
                    },
                    Outcome::Found(_, _) => Outcome::Fail,
                    Outcome::Error => Outcome::Error,
                }
            }
        },
        Goal::AnyCond { conds, k, then } => {
            let k = *k;
            if k >= conds.len() {
                Outcome::Fail
            } else {
                let g = Goal::Start { cond: &conds[k], then };
                assert(conds_view(conds@)[k as int] == cond_view(conds@[k as int]));
                let o = check_goal(env, &g, n, ch.duplicate());
                if !o.is_fail() {
                    return o;
                }
                let g2 = Goal::AnyCond { conds, k: k + 1, then };
                check_goal(env, &g2, n, ch)
            }
        },
        Goal::Rule { conds, anti, input } => {
            let env2 = cond_env(input, n);
            let no_anti = Goal::NoAnti { anti, k: 0 };
            if conds.len() == 0 {
                check_goal(&env2, &no_anti, n, ch)
            } else {
                let g = Goal::AnyCond { conds, k: 0, then: &no_anti };
                proof {
                    assert(goal_rank(goal_view(no_anti)) == 3 + conds_weight(conds_view(anti@), 0));
                    assert(goal_rank(goal_view(g)) == goal_rank(goal_view(no_anti)) + 3 + conds_weight(conds_view(conds@), 0));
                }
                check_goal(&env2, &g, n, ch)
            }
        },
    }
}

/// The first match of a list of tokens against the phones a reader reads, extending
/// the given choices: its length and the choices made
pub fn match_tokens<'s>(tokens: &[RuleToken<'s>], phones: &Phones<'_, 's>, choices: Choices<'s>) -> (r: Option<(usize, Choices<'s>)>)
    ensures
        match spec_search((phones@, phones@), SpecGoal::Accept, phones@, seq![tokens_view(tokens@)], 0, choices@) {
            SpecOutcome::Found(n, c) => r matches Some((m, d)) && m == n && d@ == c,
            _ => r is None,
        },
{
    let env = CondPhoneInput {
        left: Phones { phone_list: phones.phone_list, index: phones.index, direction: phones.direction },
        right: Phones { phone_list: phones.phone_list, index: phones.index, direction: phones.direction },
    };
    let goal = Goal::Accept;
    let done = Frames::Done;
    let f = Frames::Then { tokens, lo: 0, hi: tokens.len(), rest: &done };
    proof {
        lemma_tokens_view_len(tokens@);
        assert(tokens_view(tokens@).subrange(0, tokens@.len() as int) =~= tokens_view(tokens@));
        assert(frames_view(done) =~= Seq::<Seq<SpecRuleToken>>::empty());
        assert(frames_view(f) =~= seq![tokens_view(tokens@)]);
        assert(frames_wf(done));
        assert(frames_wf(f));
    }
    match search(&env, &goal, phones, &f, 0, choices) {
        Outcome::Found(n, c) => Some((n, c)),
        _ => None,
    }
}

/// Whether a condition holds around an input of `input_len` phones: for left-to-right
/// application the input starts at `phone_index`, for right-to-left it ends there
pub open spec fn spec_eval(cond: SpecCond, phones: Seq<SpecPhone>, phone_index: int, input_len: int, ch: SpecChoices, dir: Direction) -> SpecOutcome {
    spec_goal(
        spec_cond_env(spec_new_phones(phones, phone_index, dir), input_len),
        SpecGoal::Start { cond, then: Box::new(SpecGoal::Accept) },
        0,
        ch,
    )
}

impl<'s> Cond<'s> {
    /// Checks if the condition matches the phones in a list around a given index,
    /// assuming the input of a given size matches, based on the application direction;
    /// the choices made by the first match are added to `choices`
    pub fn eval(&self, phones: &[Phone<'s>], phone_index: usize, input_len: usize, choices: &mut Choices<'s>, dir: Direction) -> (r: Result<bool, MatchError>)
        requires
            match dir {
                Direction::Ltr => phone_index + input_len <= phones@.len(),
                Direction::Rtl => phone_index < phones@.len(),
            },
        ensures
            match spec_eval(cond_view(*self), phones_view(phones@), phone_index as int, input_len as int, old(choices)@, dir) {
                SpecOutcome::Found(_, c) => r == Ok::<bool, MatchError>(true) && final(choices)@ == c,
                SpecOutcome::Fail => r == Ok::<bool, MatchError>(false) && final(choices)@ == old(choices)@,
                SpecOutcome::Error => r == Err::<bool, MatchError>(MatchError::PatternCannotBeConvertedToPhones) && final(choices)@ == old(choices)@,
            },
    {
        let input = Phones::new(phones, phone_index, dir);
        let env = cond_env(&input, input_len);
        let accept = Goal::Accept;
        let goal = Goal::Start { cond: self, then: &accept };
        assert(goal_view(accept) == SpecGoal::Accept);
        assert(goal_view(goal) == SpecGoal::Start { cond: cond_view(*self), then: Box::new(SpecGoal::Accept) });
        match check_goal(&env, &goal, 0, choices.duplicate()) {
            Outcome::Found(_, c) => {
                *choices = c;
                Ok(true)
            },
            Outcome::Fail => Ok(false),
            Outcome::Error => Err(MatchError::PatternCannotBeConvertedToPhones),
        }
    }
}

/// The first match of a rule's input, read from `i` in the rule's direction, around which
/// one of the conditions holds (or which has no conditions) and no anti-condition matches
pub open spec fn spec_rule_at(rule: SpecRule, ps: Seq<SpecPhone>, i: int) -> SpecOutcome {
    let r = spec_new_phones(ps, i, rule.kind.dir);
    spec_search(
        (r, r),
        SpecGoal::Rule { conds: rule.conds, anti: rule.anti_conds, input: r },
        r,
        seq![rule.input],
        0,
        spec_no_choices(),
    )
}

/// Finds the first match of a rule's input, conditions and anti-conditions against
/// the phones a reader reads
pub fn next_rule_match<'s>(input: &[RuleToken<'s>], conds: &[Cond<'s>], anti_conds: &[Cond<'s>], phones: &Phones<'_, 's>) -> (r: Outcome<'s>)
    ensures
        outcome_view(r) == spec_search(
            (phones@, phones@),
            SpecGoal::Rule { conds: conds_view(conds@), anti: conds_view(anti_conds@), input: phones@ },
            phones@,
            seq![tokens_view(input@)],
            0,
            spec_no_choices(),
        ),
{
    let env = CondPhoneInput {
        left: Phones { phone_list: phones.phone_list, index: phones.index, direction: phones.direction },
        right: Phones { phone_list: phones.phone_list, index: phones.index, direction: phones.direction },
    };
    let reader = Phones { phone_list: phones.phone_list, index: phones.index, direction: phones.direction };
    let goal = Goal::Rule { conds, anti: anti_conds, input: &reader };
    let done = Frames::Done;
    let f = Frames::Then { tokens: input, lo: 0, hi: input.len(), rest: &done };
    proof {
        lemma_tokens_view_len(input@);
        assert(tokens_view(input@).subrange(0, input@.len() as int) =~= tokens_view(input@));
        assert(frames_view(done) =~= Seq::<Seq<SpecRuleToken>>::empty());
        assert(frames_view(f) =~= seq![tokens_view(input@)]);
        assert(frames_wf(done));
        assert(frames_wf(f));
    }
    search(&env, &goal, phones, &f, 0, Choices::new())
}

/// Finds the first match of a rule's input at index `i`
pub fn rule_at<'s>(rule: &SoundChangeRule<'s>, phones: &[Phone<'s>], i: usize) -> (r: Outcome<'s>)
    ensures
        outcome_view(r) == spec_rule_at(rule_view(*rule), phones_view(phones@), i as int),
{
    let reader = Phones::new(phones, i, rule.kind.dir);
    next_rule_match(rule.input.as_slice(), rule.conds.as_slice(), rule.anti_conds.as_slice(), &reader)
}


/// Whether a list of tokens holds a gap, directly or inside a scope
pub open spec fn spec_contains_gap(toks: Seq<SpecRuleToken>) -> bool
    decreases toks,
{
    if toks.len() == 0 {
        false
    } else {
        let here = match toks[0] {
            SpecRuleToken::Gap { .. } => true,
            SpecRuleToken::OptionalScope { content, .. } => spec_contains_gap(content),
            SpecRuleToken::SelectionScope { options, .. } => exists|j: int| 0 <= j < options.len() && spec_contains_gap(#[trigger] options[j]),
            _ => false,
        };
        here || spec_contains_gap(toks.drop_first())
    }
}

/// Determines whether a list of tokens holds a gap
pub fn contains_gap(tokens: &[RuleToken]) -> (r: bool)
    ensures
        r == spec_contains_gap(tokens_view(tokens@)),
    decreases toks_size(tokens_view(tokens@)),
{
    let ghost tv = tokens_view(tokens@);
    proof {
        lemma_tokens_view_len(tokens@);
    }
    let mut k: usize = 0;
    assert(tv.subrange(0, tv.len() as int) =~= tv);
    while k < tokens.len()
        invariant
            tv == tokens_view(tokens@),
            tv.len() == tokens@.len(),
            k <= tokens@.len(),
            spec_contains_gap(tv) == spec_contains_gap(tv.subrange(k as int, tv.len() as int)),
        decreases tokens@.len() - k,
    {
        let ghost rest = tv.subrange(k as int, tv.len() as int);
        proof {
            lemma_token_at(tokens@, k as int);
            assert(rest[0] == tv[k as int]);
            assert(rest.drop_first() =~= tv.subrange(k + 1, tv.len() as int));
            lemma_toks_size_elem(tv, k as int);
        }
        let here = match &tokens[k] {
            RuleToken::Gap { .. } => true,
            RuleToken::OptionalScope { content, .. } => contains_gap(content.as_slice()),
            RuleToken::SelectionScope { options, .. } => {
                let ghost ov = options_view(options@);
                proof {
                    lemma_options_view_len(options@);
                }
                assert(tok_size(tv[k as int]) == 1 + opts_size(ov));
                let mut j: usize = 0;
                while j < options.len()
                    invariant
                        ov == options_view(options@),
                        ov.len() == options@.len(),
                        j <= options@.len(),
                        0 <= k < tv.len(),
                        toks_size(tv) >= tok_size(tv[k as int]),
                        tok_size(tv[k as int]) == 1 + opts_size(ov),
                        tv == tokens_view(tokens@),
                        tv[k as int] matches SpecRuleToken::SelectionScope { options: o, .. } && o == ov,
                        spec_contains_gap(tv) == spec_contains_gap(tv.subrange(k as int, tv.len() as int)),
                        tv.subrange(k as int, tv.len() as int)[0] == tv[k as int],
                        forall|i: int| 0 <= i < j ==> !spec_contains_gap(#[trigger] ov[i]),
                    decreases options@.len() - j,
                {
                    proof {
                        lemma_options_view_index(options@, j as int);
                        lemma_opts_size_elem(ov, j as int);
                    }
                    if contains_gap(options[j].as_slice()) {
                        assert(spec_contains_gap(ov[j as int]));
                        assert(spec_contains_gap(tv.subrange(k as int, tv.len() as int)));
                        return true;
                    }
                    j += 1;
                }
                false
            },
            _ => false,
        };
        if here {
            return true;
        }
        k += 1;
    }
    assert(tv.subrange(k as int, tv.len() as int) =~= Seq::<SpecRuleToken>::empty());
    false
}

/// Every match, in the order of the search, of a stack of token lists against the phones
/// read by `r` after `n` phones, each with its length and the choices it made. Tokens are
/// read as by `spec_search`; a gap gives no match here, since only conditions hold gaps
pub open spec fn spec_all(r: SpecPhones, frames: Seq<Seq<SpecRuleToken>>, n: usize, ch: SpecChoices) -> Seq<(usize, SpecChoices)>
    decreases frames_size(frames) + 1, frames.len(), 0nat,
{
    if frames.len() == 0 {
        seq![(n, ch)]
    } else if frames[0].len() == 0 {
        spec_all(r, frames.drop_first(), n, ch)
    } else {
        let top = frames[0];
        let t = next_tok(top, r.dir);
        let fr = frames.update(0, rest_toks(top, r.dir));
        proof {
            lemma_rest_toks_size(top, r.dir);
            lemma_frames_size_update(frames, rest_toks(top, r.dir));
        }
        match t {
            SpecRuleToken::Phone(p) => if n < usize::MAX && spec_phones_match(p, spec_read(r, n as int)) {
                spec_all(r, fr, (n + 1) as usize, ch)
            } else {
                Seq::empty()
            },
            SpecRuleToken::Any { id } => {
                let ph = spec_read(r, n as int);
                if n >= usize::MAX {
                    Seq::empty()
                } else {
                    match id {
                        None => if !spec_is_bound(ph) {
                            spec_all(r, fr, (n + 1) as usize, ch)
                        } else {
                            Seq::empty()
                        },
                        Some(id) => match assoc(ch.any, id) {
                            Some(c) => if spec_phones_match(ph, c) {
                                spec_all(r, fr, (n + 1) as usize, ch)
                            } else {
                                Seq::empty()
                            },
                            None => if !spec_is_bound(ph) {
                                spec_all(r, fr, (n + 1) as usize, add_any(ch, id, ph))
                            } else {
                                Seq::empty()
                            },
                        },
                    }
                }
            },
            SpecRuleToken::OptionalScope { id, content } => {
                proof {
                    lemma_frames_size_push(fr, content);
                }
                match id {
                    None => spec_all(r, seq![content] + fr, n, ch) + spec_all(r, fr, n, ch),
                    Some(id) => match assoc(ch.optional, id) {
                        Some(true) => spec_all(r, seq![content] + fr, n, ch),
                        Some(false) => spec_all(r, fr, n, ch),
                        None => spec_all(r, seq![content] + fr, n, add_optional(ch, id, true))
                            + spec_all(r, fr, n, add_optional(ch, id, false)),
                    },
                }
            },
            SpecRuleToken::SelectionScope { id, options } => {
                proof {
                    assert(options.subrange(0, options.len() as int) =~= options);
                }
                match id {
                    Some(id) => match assoc(ch.selection, id) {
                        Some(j) => if j < options.len() {
                            proof {
                                lemma_opts_size_elem(options, j as int);
                                lemma_frames_size_push(fr, options[j as int]);
                            }
                            spec_all(r, seq![options[j as int]] + fr, n, ch)
                        } else {
                            Seq::empty()
                        },
                        None => spec_all_select(r, fr, options, Some(id), 0, n, ch),
                    },
                    None => spec_all_select(r, fr, options, None, 0, n, ch),
                }
            },
            SpecRuleToken::Gap { .. } => Seq::empty(),
        }
    }
}

/// Every match that takes one of the options of a selection from the `j`th on
pub open spec fn spec_all_select(
    r: SpecPhones,
    fr: Seq<Seq<SpecRuleToken>>,
    options: Seq<Seq<SpecRuleToken>>,
    id: Option<SpecScopeId>,
    j: nat,
    n: usize,
    ch: SpecChoices,
) -> Seq<(usize, SpecChoices)>
    decreases frames_size(fr) + opts_size_from(options, j as int) + 1, fr.len() + 2, options.len() - j,
{
    if j >= options.len() || j > usize::MAX {
        Seq::empty()
    } else {
        proof {
            lemma_opts_size_from(options, j as int);
            lemma_frames_size_push(fr, options[j as int]);
        }
        let ch2 = match id {
            Some(id) => add_selection(ch, id, j as usize),
            None => ch,
        };
        spec_all(r, seq![options[j as int]] + fr, n, ch2) + spec_all_select(r, fr, options, id, j + 1, n, ch)
    }
}

/// The mathematical value of a list of matches
pub open spec fn matches_view<'s>(v: Seq<(usize, Choices<'s>)>) -> Seq<(usize, SpecChoices)> {
    v.map_values(|m: (usize, Choices<'s>)| (m.0, m.1@))
}

proof fn lemma_matches_view_push<'s>(v: Seq<(usize, Choices<'s>)>, m: (usize, Choices<'s>))
    ensures
        matches_view(v.push(m)) == matches_view(v).push((m.0, m.1@)),
{
    assert(matches_view(v.push(m)) =~= matches_view(v).push((m.0, m.1@)));
}

/// Appends every match of a stack of token lists against the phones read by `r`
/// after `n` phones, in the order of the search
fn collect<'s>(r: &Phones<'_, 's>, frames: &Frames<'_, 's>, n: usize, ch: Choices<'s>, out: &mut Vec<(usize, Choices<'s>)>)
    requires
        frames_wf(*frames),
    ensures
        matches_view(final(out)@) == matches_view(old(out)@) + spec_all(r@, frames_view(*frames), n, ch@),
    decreases frames_size(frames_view(*frames)) + 1, frames_view(*frames).len(), 0nat,
{
    let ghost fv = frames_view(*frames);
    let ghost before = matches_view(out@);
    match frames {
        Frames::Done => {
            let ghost c = ch@;
            out.push((n, ch));
            proof {
                lemma_matches_view_push(old(out)@, (n, ch));
                assert(spec_all(r@, fv, n, c) =~= seq![(n, c)]);
            }
        },
        Frames::Then { tokens, lo, hi, rest } => {
            let lo = *lo;
            let hi = *hi;
            let ghost tv = tokens_view(tokens@);
            proof {
                lemma_tokens_view_len(tokens@);
                assert(fv[0] == tv.subrange(lo as int, hi as int));
                assert(fv.drop_first() == frames_view(**rest));
            }
            if lo >= hi {
                collect(r, rest, n, ch, out);
                return;
            }
            let dir = r.direction();
            let (t, fr) = match dir {
                Direction::Ltr => (&tokens[lo], Frames::Then { tokens, lo: lo + 1, hi, rest }),
                Direction::Rtl => (&tokens[hi - 1], Frames::Then { tokens, lo, hi: hi - 1, rest }),
            };
            let ghost top = fv[0];
            proof {
                if dir is Ltr {
                    lemma_tokens_view_index(tokens@, lo as int);
                    assert(next_tok(top, dir) == crate::rules::token_view(*t));
                    assert(rest_toks(top, dir) =~= tv.subrange(lo + 1, hi as int));
                } else {
                    lemma_tokens_view_index(tokens@, hi - 1);
                    assert(next_tok(top, dir) == crate::rules::token_view(*t));
                    assert(rest_toks(top, dir) =~= tv.subrange(lo as int, hi - 1));
                }
                assert(frames_view(fr) =~= fv.update(0, rest_toks(top, dir)));
                assert(frames_wf(fr));
                lemma_rest_toks_size(top, dir);
                lemma_frames_size_update(fv, rest_toks(top, dir));
            }
            match t {
                RuleToken::Phone(p) => {
                    if n < usize::MAX && p.matches(&r.get(n)) {
                        collect(r, &fr, n + 1, ch, out);
                    } else {
                        assert(matches_view(out@) =~= before + Seq::<(usize, SpecChoices)>::empty());
                    }
                },
                RuleToken::Any { id } => {
                    if n >= usize::MAX {
                        assert(matches_view(out@) =~= before + Seq::<(usize, SpecChoices)>::empty());
                        return;
                    }
                    let ph = r.get(n);
                    match id {
                        None => if !ph.is_bound() {
                            collect(r, &fr, n + 1, ch, out);
                        } else {
                            assert(matches_view(out@) =~= before + Seq::<(usize, SpecChoices)>::empty());
                        },
                        Some(id) => match ch.any(id) {
                            Some(c) => if ph.matches(&c) {
                                collect(r, &fr, n + 1, ch, out);
                            } else {
                                assert(matches_view(out@) =~= before + Seq::<(usize, SpecChoices)>::empty());
                            },
                            None => if !ph.is_bound() {
                                let mut ch2 = ch;
                                ch2.choose_any(id, ph);
                                collect(r, &fr, n + 1, ch2, out);
                            } else {
                                assert(matches_view(out@) =~= before + Seq::<(usize, SpecChoices)>::empty());
                            },
                        },
                    }
                },
                RuleToken::OptionalScope { id, content } => {
                    let cs = content.as_slice();
                    let inner = Frames::Then { tokens: cs, lo: 0, hi: content.len(), rest: &fr };
                    proof {
                        lemma_tokens_view_len(content@);
                        assert(cs@ == content@);
                        assert(tokens_view(content@).subrange(0, content@.len() as int) =~= tokens_view(content@));
                        assert(frames_view(inner) =~= seq![tokens_view(content@)] + frames_view(fr));
                        assert(frames_wf(inner));
                        lemma_frames_size_push(frames_view(fr), tokens_view(content@));
                    }
                    match id {
                        None => {
                            let ghost c = ch@;
                            collect(r, &inner, n, ch.duplicate(), out);
                            collect(r, &fr, n, ch, out);
                            proof {
                                assert(matches_view(out@) =~= before + (spec_all(r@, frames_view(inner), n, c) + spec_all(r@, frames_view(fr), n, c)));
                            }
                        },
                        Some(id) => match ch.optional(id) {
                            Some(true) => collect(r, &inner, n, ch, out),
                            Some(false) => collect(r, &fr, n, ch, out),
                            None => {
                                let mut ch_in = ch.duplicate();
                                ch_in.choose_optional(id, true);
                                let ghost c_in = ch_in@;
                                collect(r, &inner, n, ch_in, out);
                                let mut ch_out = ch;
                                ch_out.choose_optional(id, false);
                                let ghost c_out = ch_out@;
                                collect(r, &fr, n, ch_out, out);
                                proof {
                                    assert(matches_view(out@) =~= before + (spec_all(r@, frames_view(inner), n, c_in) + spec_all(r@, frames_view(fr), n, c_out)));
                                }
                            },
                        },
                    }
                },
                RuleToken::SelectionScope { id, options } => {
                    let ghost ov = options_view(options@);
                    proof {
                        lemma_options_view_len(options@);
                        assert(ov.subrange(0, ov.len() as int) =~= ov);
                    }
                    let chosen = match id {
                        Some(id) => ch.selection(id),
                        None => None,
                    };
                    match chosen {
                        Some(j) => {
                            if j < options.len() {
                                let os = options[j].as_slice();
                                let inner = Frames::Then { tokens: os, lo: 0, hi: options[j].len(), rest: &fr };
                                proof {
                                    lemma_options_view_index(options@, j as int);
                                    lemma_tokens_view_len(options@[j as int]@);
                                    assert(os@ == options@[j as int]@);
                                    assert(ov[j as int].subrange(0, ov[j as int].len() as int) =~= ov[j as int]);
                                    assert(frames_view(inner) =~= seq![ov[j as int]] + frames_view(fr));
                                    assert(frames_wf(inner));
                                    lemma_opts_size_elem(ov, j as int);
                                    lemma_frames_size_push(frames_view(fr), ov[j as int]);
                                }
                                collect(r, &inner, n, ch, out);
                            } else {
                                assert(matches_view(out@) =~= before + Seq::<(usize, SpecChoices)>::empty());
                            }
                        },
                        None => {
                            let ghost sid = crate::rules::opt_id_view(*id);
                            let ghost c0 = ch@;
                            let mut j: usize = 0;
                            while j < options.len()
                                invariant
                                    j <= options@.len(),
                                    ov == options_view(options@),
                                    fv == frames_view(*frames),
                                    sid == crate::rules::opt_id_view(*id),
                                    c0 == ch@,
                                    ov.len() == options@.len(),
                                    frames_wf(fr),
                                    spec_all(r@, fv, n, c0) == matches_view(out@).subrange(before.len() as int, matches_view(out@).len() as int)
                                        + spec_all_select(r@, frames_view(fr), ov, sid, j as nat, n, c0),
                                    before.len() <= matches_view(out@).len(),
                                    matches_view(out@).subrange(0, before.len() as int) == before,
                                    frames_size(fv) == frames_size(frames_view(fr)) + 1 + opts_size(ov),
                                decreases options@.len() - j,
                            {
                                let mut ch2 = ch.duplicate();
                                if let Some(id) = id {
                                    ch2.choose_selection(id, j);
                                }
                                let os = options[j].as_slice();
                                let inner = Frames::Then { tokens: os, lo: 0, hi: options[j].len(), rest: &fr };
                                proof {
                                    lemma_options_view_index(options@, j as int);
                                    lemma_tokens_view_len(options@[j as int]@);
                                    assert(os@ == options@[j as int]@);
                                    assert(ov[j as int].subrange(0, ov[j as int].len() as int) =~= ov[j as int]);
                                    assert(frames_view(inner) =~= seq![ov[j as int]] + frames_view(fr));
                                    assert(frames_wf(inner));
                                    lemma_opts_size_elem(ov, j as int);
                                    lemma_frames_size_push(frames_view(fr), ov[j as int]);
                                    assert(ch2@ == match sid {
                                        Some(i) => add_selection(c0, i, j),
                                        None => c0,
                                    });
                                }
                                let ghost mid = matches_view(out@);
                                collect(r, &inner, n, ch2, out);
                                proof {
                                    let now = matches_view(out@);
                                    let added = spec_all(r@, seq![ov[j as int]] + frames_view(fr), n, ch2@);
                                    assert(now == mid + added);
                                    assert(spec_all_select(r@, frames_view(fr), ov, sid, j as nat, n, c0)
                                        == added + spec_all_select(r@, frames_view(fr), ov, sid, (j + 1) as nat, n, c0));
                                    assert(now.subrange(before.len() as int, now.len() as int)
                                        =~= mid.subrange(before.len() as int, mid.len() as int) + added);
                                    assert(now.subrange(0, before.len() as int) =~= mid.subrange(0, before.len() as int));
                                }
                                j += 1;
                            }
                            proof {
                                let now = matches_view(out@);
                                assert(spec_all_select(r@, frames_view(fr), ov, sid, j as nat, n, c0) =~= Seq::<(usize, SpecChoices)>::empty());
                                assert(now =~= now.subrange(0, before.len() as int) + now.subrange(before.len() as int, now.len() as int));
                            }
                        },
                    }
                },
                RuleToken::Gap { .. } => {
                    assert(matches_view(out@) =~= before + Seq::<(usize, SpecChoices)>::empty());
                },
            }
        },
    }
}

/// The first of the matches from the `j`th on for which the goal holds, with its index;
/// an error stops the scan where it happened; with none, the index where the scan ended
pub open spec fn spec_first_from(
    env: (SpecPhones, SpecPhones),
    goal: SpecGoal,
    ms: Seq<(usize, SpecChoices)>,
    j: int,
) -> (int, SpecOutcome)
    decreases ms.len() - j,
{
    if j < 0 || j >= ms.len() {
        (j, SpecOutcome::Fail)
    } else {
        match spec_goal(env, goal, ms[j].0, ms[j].1) {
            SpecOutcome::Fail => spec_first_from(env, goal, ms, j + 1),
            o => (j, o),
        }
    }
}

/// A match found by the scan lies among the matches; without one, the scan ends at the
/// end of the matches, or where it started when that was past them
proof fn lemma_first_from_range(env: (SpecPhones, SpecPhones), goal: SpecGoal, ms: Seq<(usize, SpecChoices)>, j: int)
    requires
        0 <= j,
    ensures
        spec_first_from(env, goal, ms, j).1 is Fail ==> spec_first_from(env, goal, ms, j).0 == if j < ms.len() { ms.len() as int } else { j },
        !(spec_first_from(env, goal, ms, j).1 is Fail) ==> j <= spec_first_from(env, goal, ms, j).0 < ms.len(),
    decreases ms.len() - j,
{
    if j < ms.len() && spec_goal(env, goal, ms[j].0, ms[j].1) is Fail {
        lemma_first_from_range(env, goal, ms, j + 1);
    }
}

/// Finds the first of the matches from the `j`th on for which the goal holds
fn first_from<'s>(env: &CondPhoneInput<'_, 's>, goal: &Goal<'_, 's>, all: &Vec<(usize, Choices<'s>)>, j: usize) -> (r: (usize, Outcome<'s>))
    ensures
        (r.0 as int, outcome_view(r.1)) == spec_first_from(env_view(*env), goal_view(*goal), matches_view(all@), j as int),
{
    let ghost ms = matches_view(all@);
    let mut k = j;
    while k < all.len()
        invariant
            ms == matches_view(all@),
            ms.len() == all@.len(),
            j <= k,
            spec_first_from(env_view(*env), goal_view(*goal), ms, j as int)
                == spec_first_from(env_view(*env), goal_view(*goal), ms, k as int),
        decreases all@.len() - k,
    {
        let ch = all[k].1.duplicate();
        let o = check_goal(env, goal, all[k].0, ch);
        if !o.is_fail() {
            return (k, o);
        }
        k += 1;
    }
    (k, Outcome::Fail)
}

/// A matchable pattern for a rule: its input, its conditions (one that always holds when
/// none was given) and its anti-conditions, and how far its matches have been gone through
pub struct RulePattern<'r, 's> {
    input: &'r [RuleToken<'s>],
    conds: &'r [Cond<'s>],
    anti_conds: &'r [Cond<'s>],
    default_conds: Vec<Cond<'s>>,
    len: usize,
    pos: usize,
}

impl<'r, 's> RulePattern<'r, 's> {
    /// The input of the pattern
    pub closed spec fn input_view(&self) -> Seq<SpecRuleToken> {
        tokens_view(self.input@)
    }

    /// The conditions of the pattern
    pub closed spec fn conds_view(&self) -> Seq<SpecCond> {
        if self.conds@.len() == 0 {
            conds_view(self.default_conds@)
        } else {
            conds_view(self.conds@)
        }
    }

    /// The anti-conditions of the pattern
    pub closed spec fn anti_conds_view(&self) -> Seq<SpecCond> {
        conds_view(self.anti_conds@)
    }

    /// The length of the last match
    pub closed spec fn spec_len(&self) -> usize {
        self.len
    }

    /// How many matches of the input have been gone through
    pub closed spec fn spec_pos(&self) -> usize {
        self.pos
    }

    /// What must hold around a match of the input read by `input`
    pub open spec fn rule_goal(&self, input: SpecPhones) -> SpecGoal {
        SpecGoal::Rule { conds: self.conds_view(), anti: self.anti_conds_view(), input }
    }

    /// Every match of the input against the phones read by `r`, in the order of the search
    pub open spec fn input_matches(&self, r: SpecPhones) -> Seq<(usize, SpecChoices)> {
        spec_all(r, seq![self.input_view()], 0, spec_no_choices())
    }

    /// Creates the pattern of a rule; an input may not hold a gap, and a rule without
    /// conditions gets one that always holds
    pub fn new(input: &'r [RuleToken<'s>], conds: &'r [Cond<'s>], anti_conds: &'r [Cond<'s>]) -> (r: Result<Self, MatchError>)
        ensures
            match r {
                Ok(p) => !spec_contains_gap(tokens_view(input@)) && p.input_view() == tokens_view(input@)
                    && p.conds_view() == (if conds@.len() == 0 {
                        seq![crate::rules::spec_default_cond()]
                    } else {
                        conds_view(conds@)
                    })
                    && p.anti_conds_view() == conds_view(anti_conds@)
                    && p.spec_len() == 0 && p.spec_pos() == 0,
                Err(e) => spec_contains_gap(tokens_view(input@)) && e == MatchError::GapOutOfCond,
            },
    {
        if contains_gap(input) {
            return Err(MatchError::GapOutOfCond);
        }
        let mut default_conds = Vec::new();
        if conds.len() == 0 {
            default_conds.push(Cond::default());
            assert(conds_view(default_conds@) =~= seq![crate::rules::spec_default_cond()]);
        }
        Ok(RulePattern { input, conds, anti_conds, default_conds, len: 0, pos: 0 })
    }

    /// Goes on through the matches of the input against the phones a reader reads, from
    /// where the last call stopped, to the next one around which one of the conditions
    /// holds and no anti-condition matches, returning its choices; its length is kept for
    /// `len`. Once the matches are used up, `Ok(None)` is returned until `reset`
    pub fn next_match(&mut self, phones: Phones<'_, 's>) -> (r: Result<Option<Choices<'s>>, MatchError>)
        ensures
            final(self).input_view() == old(self).input_view(),
            final(self).conds_view() == old(self).conds_view(),
            final(self).anti_conds_view() == old(self).anti_conds_view(),
            match spec_first_from(
                (phones@, phones@),
                old(self).rule_goal(phones@),
                old(self).input_matches(phones@),
                old(self).spec_pos() as int,
            ) {
                (j, SpecOutcome::Found(_, c)) => r matches Ok(Some(d)) && d@ == c && final(self).spec_pos() == j + 1
                    && final(self).spec_len() == old(self).input_matches(phones@)[j].0,
                (j, SpecOutcome::Fail) => r matches Ok(None) && final(self).spec_pos() == j
                    && final(self).spec_len() == old(self).spec_len(),
                (j, SpecOutcome::Error) => r == Err::<Option<Choices<'s>>, MatchError>(MatchError::PatternCannotBeConvertedToPhones)
                    && final(self).spec_pos() == j + 1 && final(self).spec_len() == old(self).spec_len(),
            },
    {
        let ghost ms = old(self).input_matches(phones@);
        let (idx, o, n) = {
            let conds: &[Cond<'s>] = if self.conds.len() == 0 {
                self.default_conds.as_slice()
            } else {
                self.conds
            };
            let env = CondPhoneInput {
                left: Phones { phone_list: phones.phone_list, index: phones.index, direction: phones.direction },
                right: Phones { phone_list: phones.phone_list, index: phones.index, direction: phones.direction },
            };
            let reader = Phones { phone_list: phones.phone_list, index: phones.index, direction: phones.direction };
            let goal = Goal::Rule { conds, anti: self.anti_conds, input: &reader };
            let done = Frames::Done;
            let f = Frames::Then { tokens: self.input, lo: 0, hi: self.input.len(), rest: &done };
            proof {
                lemma_tokens_view_len(self.input@);
                assert(tokens_view(self.input@).subrange(0, self.input@.len() as int) =~= tokens_view(self.input@));
                assert(frames_view(done) =~= Seq::<Seq<SpecRuleToken>>::empty());
                assert(frames_view(f) =~= seq![tokens_view(self.input@)]);
                assert(frames_wf(done));
                assert(frames_wf(f));
            }
            let mut all: Vec<(usize, Choices<'s>)> = Vec::new();
            collect(&reader, &f, 0, Choices::new(), &mut all);
            assert(matches_view(all@) =~= ms);
            assert(goal_view(goal) == old(self).rule_goal(phones@));
            let (idx, o) = first_from(&env, &goal, &all, self.pos);
            proof {
                lemma_first_from_range(env_view(env), goal_view(goal), ms, self.pos as int);
            }
            let n = if idx < all.len() { all[idx].0 } else { 0 };
            (idx, o, n)
        };
        match o {
            Outcome::Found(_, c) => {
                self.pos = idx + 1;
                self.len = n;
                Ok(Some(c))
            },
            Outcome::Fail => {
                self.pos = idx;
                Ok(None)
            },
            Outcome::Error => {
                self.pos = idx + 1;
                Err(MatchError::PatternCannotBeConvertedToPhones)
            },
        }
    }

    /// Starts the matches of the input over
    pub fn reset(&mut self)
        ensures
            final(self).input_view() == old(self).input_view(),
            final(self).conds_view() == old(self).conds_view(),
            final(self).anti_conds_view() == old(self).anti_conds_view(),
            final(self).spec_len() == old(self).spec_len(),
            final(self).spec_pos() == 0,
    {
        self.pos = 0;
    }

    /// The input of the pattern
    pub fn input(&self) -> (r: &'r [RuleToken<'s>])
        ensures
            tokens_view(r@) == self.input_view(),
    {
        self.input
    }

    /// The conditions of the pattern
    pub fn conds(&self) -> (r: &[Cond<'s>])
        ensures
            conds_view(r@) == self.conds_view(),
    {
        if self.conds.len() == 0 {
            self.default_conds.as_slice()
        } else {
            self.conds
        }
    }

    /// The anti-conditions of the pattern
    pub fn anti_conds(&self) -> (r: &'r [Cond<'s>])
        ensures
            conds_view(r@) == self.anti_conds_view(),
    {
        self.anti_conds
    }

    /// The length of the last match of the input
    pub fn len(&self) -> (r: usize)
        ensures
            r == self.spec_len(),
    {
        self.len
    }
}
}
