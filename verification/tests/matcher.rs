use cscsca::matcher::{Choices, MatchError, Phones, RulePattern as LibRulePattern, match_tokens};
use cscsca::phones::Phone;
use cscsca::rules::{Cond, RuleToken};
use cscsca::tokens::{AndType, CondType, Direction, ScopeId};

// A pattern as a buildable, copyable description of a rule token, with the length of its last match

#[derive(Clone)]
enum Pat {
    Phone(Phone<'static>),
    Any(Option<ScopeId<'static>>),
    Gap(Option<&'static str>),
    Optional(Vec<Pattern>, Option<ScopeId<'static>>),
    Selection(Vec<Vec<Pattern>>, Option<ScopeId<'static>>),
}

#[derive(Clone)]
struct Pattern {
    pat: Pat,
    len: usize,
}

fn tokens(patterns: &[Pattern]) -> Vec<RuleToken<'static>> {
    patterns.iter().map(Pattern::token).collect()
}

fn first_match(toks: &[RuleToken<'static>], phones: &Phones<'_, 'static>, choices: &Choices<'static>) -> Option<(usize, Choices<'static>)> {
    match_tokens(toks, phones, choices.duplicate())
}

impl Pattern {
    fn new_phone(phone: Phone<'static>) -> Self {
        Pattern { pat: Pat::Phone(phone), len: 0 }
    }

    fn new_any(id: Option<&ScopeId<'static>>) -> Self {
        Pattern { pat: Pat::Any(id.cloned()), len: 0 }
    }

    fn new_gap(id: Option<&'static str>) -> Self {
        Pattern { pat: Pat::Gap(id), len: 0 }
    }

    fn new_optional(content: Vec<Pattern>, id: Option<&ScopeId<'static>>) -> Self {
        Pattern { pat: Pat::Optional(content, id.cloned()), len: 0 }
    }

    fn new_selection(options: Vec<Vec<Pattern>>, id: Option<&ScopeId<'static>>) -> Self {
        Pattern { pat: Pat::Selection(options, id.cloned()), len: 0 }
    }

    fn token(&self) -> RuleToken<'static> {
        match &self.pat {
            Pat::Phone(p) => RuleToken::Phone(*p),
            Pat::Any(id) => RuleToken::Any { id: id.clone() },
            Pat::Gap(id) => RuleToken::Gap { id: *id },
            Pat::Optional(content, id) => RuleToken::OptionalScope { id: id.clone(), content: tokens(content) },
            Pat::Selection(options, id) => RuleToken::SelectionScope {
                id: id.clone(),
                options: options.iter().map(|o| tokens(o)).collect(),
            },
        }
    }

    fn matches(&self, phones: &mut Phones<'_, 'static>, choices: &Choices<'static>) -> Option<Choices<'static>> {
        first_match(&[self.token()], phones, choices).map(|(_, c)| c)
    }

    fn next_match(&mut self, phones: &mut Phones<'_, 'static>, choices: &Choices<'static>) -> Option<Choices<'static>> {
        let (n, c) = first_match(&[self.token()], phones, choices)?;
        self.len = n;
        Some(c)
    }

    fn len(&self) -> usize {
        self.len
    }
}

#[derive(Clone, Default)]
struct PatternList {
    patterns: Vec<Pattern>,
    len: usize,
}

impl PatternList {
    fn new(patterns: Vec<Pattern>) -> Self {
        PatternList { patterns, len: 0 }
    }

    fn matches(&self, phones: &mut Phones<'_, 'static>, choices: &Choices<'static>) -> Option<Choices<'static>> {
        first_match(&tokens(&self.patterns), phones, choices).map(|(_, c)| c)
    }

    fn next_match(&mut self, phones: &mut Phones<'_, 'static>, choices: &Choices<'static>) -> Option<Choices<'static>> {
        let (n, c) = first_match(&tokens(&self.patterns), phones, choices)?;
        self.len = n;
        Some(c)
    }

    fn len(&self) -> usize {
        self.len
    }
}

struct CheckBox;

impl CheckBox {
    fn new(phone: Phone<'static>) -> Pattern {
        Pattern::new_phone(phone)
    }
}

trait UnitState {
    fn matches(&mut self, phones: &mut Phones<'_, 'static>, choices: &Choices<'static>) -> Option<Choices<'static>>;
}

impl UnitState for Phone<'static> {
    fn matches(&mut self, phones: &mut Phones<'_, 'static>, choices: &Choices<'static>) -> Option<Choices<'static>> {
        Pattern::new_phone(*self).matches(phones, choices)
    }
}

#[derive(Clone)]
struct CondPattern {
    kind: CondType,
    left: PatternList,
    right: PatternList,
    and: Vec<(AndType, CondPattern)>,
}

impl CondPattern {
    fn new(kind: CondType, left: PatternList, right: PatternList) -> Self {
        CondPattern { kind, left, right, and: Vec::new() }
    }

    fn add_and(&mut self, and_type: AndType, and: Self) {
        self.and.push((and_type, and));
    }

    fn cond(&self) -> Cond<'static> {
        let mut cond = Cond::new(self.kind, tokens(&self.left.patterns), tokens(&self.right.patterns));
        for (t, c) in &self.and {
            cond.add_and(*t, c.cond());
        }
        cond
    }
}

/// A rule pattern built from the pattern helpers above, going through its matches
/// one call after another
struct RulePattern {
    input: Vec<RuleToken<'static>>,
    conds: Vec<Cond<'static>>,
    anti_conds: Vec<Cond<'static>>,
    calls: usize,
}

impl RulePattern {
    fn new(input: PatternList, conds: Vec<CondPattern>, anti_conds: Vec<CondPattern>) -> Result<Self, MatchError> {
        let pattern = RulePattern {
            input: tokens(&input.patterns),
            conds: conds.iter().map(CondPattern::cond).collect(),
            anti_conds: anti_conds.iter().map(CondPattern::cond).collect(),
            calls: 0,
        };
        LibRulePattern::new(&pattern.input, &pattern.conds, &pattern.anti_conds)?;
        Ok(pattern)
    }

    fn next_match(&mut self, phones: &Phones<'_, 'static>) -> Result<Option<Choices<'static>>, MatchError> {
        let mut pattern = LibRulePattern::new(&self.input, &self.conds, &self.anti_conds)?;
        let mut result = Ok(None);
        for _ in 0..=self.calls {
            result = pattern.next_match(*phones);
        }
        self.calls += 1;
        result
    }
}


#[test]
fn ltr_pattern_tests_single_phone() {
    let choices = Choices::default();

    let mut phone = Phone::Symbol("a");
    let mut match_phones = Phones::new(&[Phone::Symbol("a")], 0, Direction::Ltr);

    assert!(UnitState::matches(&mut phone, &mut match_phones, &choices).is_some());

    let mut phone = Phone::Bound;
    let mut match_phones = Phones::new(&[Phone::Bound], 0, Direction::Ltr);

    assert!(UnitState::matches(&mut phone, &mut match_phones, &choices).is_some());

    let mut phone = Phone::Symbol("a");
    let mut match_phones = Phones::new(&[Phone::Bound], 0, Direction::Ltr);

    assert!(UnitState::matches(&mut phone, &mut match_phones, &choices).is_none());

    let mut phone = Phone::Bound;
    let mut match_phones = Phones::new(&[Phone::Symbol("a")], 0, Direction::Ltr);

    assert!(UnitState::matches(&mut phone, &mut match_phones, &choices).is_none());

    let mut phone = Phone::Symbol("a");
    let mut match_phones = Phones::new(&[Phone::Symbol("b")], 0, Direction::Ltr);

    assert!(UnitState::matches(&mut phone, &mut match_phones, &choices).is_none());
}

#[test]
fn ltr_pattern_tests_multiple_phones() {
    let choices = Choices::default();

    let phones = vec![
        Pattern::new_phone(Phone::Symbol("a")), 
        Pattern::new_phone(Phone::Symbol("b")), 
        Pattern::new_phone(Phone::Symbol("c")),
    ];
    let mut match_phones = Phones::new(&[Phone::Symbol("a"), Phone::Symbol("b"), Phone::Symbol("c")], 0, Direction::Ltr);

    assert!(PatternList::new(phones).matches(&mut match_phones, &choices).is_some());

    let phones = vec![
        Pattern::new_phone(Phone::Symbol("a")), 
        Pattern::new_phone(Phone::Symbol("b")), 
        Pattern::new_phone(Phone::Symbol("c")),
    ];

    let mut match_phones = Phones::new(&[Phone::Symbol("a"), Phone::Symbol("b"), Phone::Symbol("d")], 0, Direction::Ltr);

    assert!(PatternList::new(phones).matches(&mut match_phones, &choices).is_none());

    let phones = vec![
        Pattern::new_phone(Phone::Symbol("a")), 
        Pattern::new_phone(Phone::Symbol("b")), 
        Pattern::new_phone(Phone::Symbol("c")),
    ];

    let mut match_phones = Phones::new(&[Phone::Symbol("a"), Phone::Symbol("b")], 0, Direction::Ltr);

    assert!(PatternList::new(phones).matches(&mut match_phones, &choices).is_none());
}

#[test]
fn ltr_pattern_tests_empty_list() {
let choices = Choices::default();

    let mut patterns = PatternList::new(Vec::new());
    let mut match_phones = Phones::new(&[], 0, Direction::Ltr);

    assert!(patterns.matches(&mut match_phones, &choices).is_some());
}

#[test]
fn ltr_pattern_tests_single_non_bound() {
    let choices = Choices::default();

    let mut phone = Pattern::new_any(None);
    let mut match_phones = Phones::new(&[Phone::Symbol("a")], 0, Direction::Ltr);

    assert!(phone.matches(&mut match_phones, &choices).is_some());

    let mut phone = Pattern::new_any(None);
    let mut match_phones = Phones::new(&[Phone::Symbol("b")], 0, Direction::Ltr);

    assert!(phone.matches(&mut match_phones, &choices).is_some());

    let mut phone = Pattern::new_any(None);
    let mut match_phones = Phones::new(&[Phone::Bound], 0, Direction::Ltr);

    assert!(phone.matches(&mut match_phones, &choices).is_none());
}

#[test]
fn ltr_pattern_tests_agreeing_non_bounds() {
    let mut choices = Choices::default();

    let label = ScopeId::Name("label");

    let patterns = vec![Pattern::new_any(Some(&label)), Pattern::new_any(Some(&label))];
    let mut match_phones = Phones::new(&[Phone::Symbol("a"), Phone::Symbol("a")], 0, Direction::Ltr);

    let Some(new_choices) = PatternList::new(patterns).matches(&mut match_phones, &choices) else {
        panic!("agreeing bounds did not patch");
    };

    choices = new_choices;

    assert_eq!(choices.any(&label), Some(Phone::Symbol("a")));

    let choices = Choices::default();

    let label = ScopeId::Name("label");

    let patterns = vec![Pattern::new_any(Some(&label)), Pattern::new_any(Some(&label))];
    let mut match_phones = Phones::new(&[Phone::Symbol("a"), Phone::Symbol("b")], 0, Direction::Ltr);

    assert!(PatternList::new(patterns).matches(&mut match_phones, &choices).is_none());
}

#[test]
fn ltr_pattern_tests_unbounded_gap() {
    let choices = Choices::default();

    let mut pattern = Pattern::new_gap(None);
    let mut match_phones = Phones::new(&[], 0, Direction::Ltr);

    assert!(pattern.matches(&mut match_phones, &choices).is_some());
}

#[test]
fn ltr_pattern_tests_bounded_gap() {
    let choices = Choices::default();

    let mut patterns = PatternList::new(vec![
        Pattern::new_phone(Phone::Symbol("a")),
        Pattern::new_gap(None),
        Pattern::new_phone(Phone::Symbol("b")),
    ]);
    let mut match_phones = Phones::new(&[Phone::Symbol("a"), Phone::Symbol("b")], 0, Direction::Ltr);

    assert!(patterns.next_match(&mut match_phones, &choices).is_some());

    let mut patterns = PatternList::new(vec![
        Pattern::new_phone(Phone::Symbol("a")),
        Pattern::new_gap(None),
        Pattern::new_phone(Phone::Symbol("b")),
    ]);
    let mut match_phones = Phones::new(&[Phone::Symbol("a"), Phone::Symbol("-"), Phone::Symbol("b")], 0, Direction::Ltr);

    assert!(patterns.next_match(&mut match_phones, &choices).is_some());

    let mut patterns = PatternList::new(vec![
        Pattern::new_phone(Phone::Symbol("a")),
        Pattern::new_gap(None),
        Pattern::new_phone(Phone::Symbol("b")),
    ]);
    let mut match_phones = Phones::new(&[Phone::Symbol("a"), Phone::Symbol("-"), Phone::Symbol("-"), Phone::Symbol("-"), Phone::Symbol("b")], 0, Direction::Ltr);

    assert!(patterns.next_match(&mut match_phones, &choices).is_some());

    let mut patterns = PatternList::new(vec![
        Pattern::new_phone(Phone::Symbol("a")),
        Pattern::new_gap(None),
        Pattern::new_phone(Phone::Symbol("b")),
    ]);
    let mut match_phones = Phones::new(&[Phone::Symbol("a"), Phone::Bound, Phone::Symbol("b")], 0, Direction::Ltr);

    assert!(patterns.next_match(&mut match_phones, &choices).is_none());
}

// todo: agreeing gaps

#[test]
fn ltr_pattern_tests_optional() {
    let choices = Choices::default();

    let mut pattern = Pattern::new_optional(vec![
        Pattern::new_phone(Phone::Symbol("a")),
        Pattern::new_phone(Phone::Symbol("b")),
        Pattern::new_phone(Phone::Symbol("c")),
    ], None);
    let mut match_phones = Phones::new(&[Phone::Symbol("a"), Phone::Symbol("b"), Phone::Symbol("c")], 0, Direction::Ltr);

    assert!(pattern.next_match(&mut match_phones, &choices).is_some());
    assert_eq!(pattern.len(), 3);

    let mut pattern = Pattern::new_optional(vec![
        Pattern::new_phone(Phone::Symbol("a")),
        Pattern::new_phone(Phone::Symbol("b")),
        Pattern::new_phone(Phone::Symbol("c")),
    ], None);
    let mut match_phones = Phones::new(&[Phone::Symbol("a"), Phone::Symbol("b"), Phone::Symbol("d")], 0, Direction::Ltr);

    assert!(pattern.next_match(&mut match_phones, &choices).is_some());
    assert_eq!(pattern.len(), 0);
}

#[test]
fn ltr_pattern_tests_agreeing_optionals() {
    let choices = Choices::default();

    let label = ScopeId::Name("label");

    let mut patterns = PatternList::new(vec![
        Pattern::new_optional(vec![
            Pattern::new_phone(Phone::Symbol("a")),
        ], Some(&label)),
        Pattern::new_optional(vec![
            Pattern::new_phone(Phone::Symbol("b")),
        ], Some(&label)),
    ]);
    let mut match_phones = Phones::new(&[Phone::Symbol("a"), Phone::Symbol("b")], 0, Direction::Ltr);

    assert!(patterns.next_match(&mut match_phones, &choices).is_some());
    assert_eq!(patterns.len(), 2);

    let mut patterns = PatternList::new(vec![
        Pattern::new_optional(vec![
            Pattern::new_phone(Phone::Symbol("a")),
        ], Some(&label)),
        Pattern::new_optional(vec![
            Pattern::new_phone(Phone::Symbol("b")),
        ], Some(&label)),
    ]);
    let mut match_phones = Phones::new(&[Phone::Symbol("b"), Phone::Symbol("b")], 0, Direction::Ltr);

    assert!(patterns.next_match(&mut match_phones, &choices).is_some());
    assert_eq!(patterns.len(), 0);
}

#[test]
fn ltr_pattern_tests_selection() {
    let choices = Choices::default();

    let mut pattern = Pattern::new_selection(vec![
        vec![Pattern::new_phone(Phone::Symbol("a"))],
        vec![Pattern::new_phone(Phone::Symbol("b"))],
        vec![Pattern::new_phone(Phone::Symbol("c"))],
    ], None);
    let mut match_phones = Phones::new(&[Phone::Symbol("a")], 0, Direction::Ltr);

    assert!(pattern.next_match(&mut match_phones, &choices).is_some());
    assert_eq!(pattern.len(), 1);

    let mut pattern = Pattern::new_selection(vec![
        vec![Pattern::new_phone(Phone::Symbol("a"))],
        vec![Pattern::new_phone(Phone::Symbol("b"))],
        vec![Pattern::new_phone(Phone::Symbol("c"))],
    ], None);
    let mut match_phones = Phones::new(&[Phone::Symbol("b")], 0, Direction::Ltr);

    assert!(pattern.next_match(&mut match_phones, &choices).is_some());
    assert_eq!(pattern.len(), 1);

    let mut pattern = Pattern::new_selection(vec![
        vec![Pattern::new_phone(Phone::Symbol("a"))],
        vec![Pattern::new_phone(Phone::Symbol("b"))],
        vec![Pattern::new_phone(Phone::Symbol("c"))],
    ], None);
    let mut match_phones = Phones::new(&[Phone::Symbol("c")], 0, Direction::Ltr);

    assert!(pattern.next_match(&mut match_phones, &choices).is_some());
    assert_eq!(pattern.len(), 1);
}


// todo: more tests

#[test]
fn rtl_pattern_tests_single_phone() {
    let choices = Choices::default();

    let mut phone = Phone::Symbol("a");
    let mut match_phones = Phones::new(&[Phone::Symbol("a")], 0, Direction::Rtl);

    assert!(UnitState::matches(&mut phone, &mut match_phones, &choices).is_some());

    let phone_box = CheckBox::new(phone);
    let mut match_phones = Phones::new(&[Phone::Symbol("a")], 0, Direction::Rtl);
    
    assert!(phone_box.matches(&mut match_phones, &choices).is_some());

    let mut phone = Phone::Bound;
    let mut match_phones = Phones::new(&[Phone::Bound], 0, Direction::Rtl);

    assert!(UnitState::matches(&mut phone, &mut match_phones, &choices).is_some());

    let phone_box = CheckBox::new(phone);
    let mut match_phones = Phones::new(&[Phone::Bound], 0, Direction::Rtl);
    
    assert!(phone_box.matches(&mut match_phones, &choices).is_some());

    let mut phone = Phone::Symbol("a");
    let mut match_phones = Phones::new(&[Phone::Bound], 0, Direction::Rtl);

    assert!(UnitState::matches(&mut phone, &mut match_phones, &choices).is_none());

    let phone_box = CheckBox::new(phone);
    let mut match_phones = Phones::new(&[Phone::Bound], 0, Direction::Rtl);
    
    assert!(phone_box.matches(&mut match_phones, &choices).is_none());

    let mut phone = Phone::Bound;
    let mut match_phones = Phones::new(&[Phone::Symbol("a")], 0, Direction::Rtl);

    assert!(UnitState::matches(&mut phone, &mut match_phones, &choices).is_none());

    let phone_box = CheckBox::new(phone);
    let mut match_phones = Phones::new(&[Phone::Symbol("a")], 0, Direction::Rtl);
    
    assert!(phone_box.matches(&mut match_phones, &choices).is_none());

    let mut phone = Phone::Symbol("a");
    let mut match_phones = Phones::new(&[Phone::Symbol("b")], 0, Direction::Rtl);

    assert!(UnitState::matches(&mut phone, &mut match_phones, &choices).is_none());

    let phone_box = CheckBox::new(phone);
    let mut match_phones = Phones::new(&[Phone::Symbol("b")], 0, Direction::Rtl);
    
    assert!(phone_box.matches(&mut match_phones, &choices).is_none());
}

#[test]
fn rtl_pattern_tests_multiple_phones() {
    let choices = Choices::default();

    let phones = vec![
        Pattern::new_phone(Phone::Symbol("a")), 
        Pattern::new_phone(Phone::Symbol("b")), 
        Pattern::new_phone(Phone::Symbol("c")),
    ];
    let mut match_phones = Phones::new(&[Phone::Symbol("a"), Phone::Symbol("b"), Phone::Symbol("c")], 2, Direction::Rtl);

    assert!(PatternList::new(phones).matches(&mut match_phones, &choices).is_some());

    let phones = vec![
        Pattern::new_phone(Phone::Symbol("a")), 
        Pattern::new_phone(Phone::Symbol("b")), 
        Pattern::new_phone(Phone::Symbol("c")),
    ];

    let mut match_phones = Phones::new(&[Phone::Symbol("a"), Phone::Symbol("b"), Phone::Symbol("d")], 2, Direction::Rtl);

    assert!(PatternList::new(phones).matches(&mut match_phones, &choices).is_none());

    let phones = vec![
        Pattern::new_phone(Phone::Symbol("a")), 
        Pattern::new_phone(Phone::Symbol("b")), 
        Pattern::new_phone(Phone::Symbol("c")),
    ];

    let mut match_phones = Phones::new(&[Phone::Symbol("a"), Phone::Symbol("b")], 1, Direction::Rtl);

    assert!(PatternList::new(phones).matches(&mut match_phones, &choices).is_none());
}

#[test]
fn rtl_pattern_tests_empty_list() {
let choices = Choices::default();

    let patterns = PatternList::new(Vec::new());
    let mut match_phones = Phones::new(&[], 0, Direction::Rtl);

    assert!(patterns.matches(&mut match_phones, &choices).is_some());
}

#[test]
fn rtl_pattern_tests_single_non_bound() {
    let choices = Choices::default();

    let phone = Pattern::new_any(None);
    let mut match_phones = Phones::new(&[Phone::Symbol("a")], 0, Direction::Rtl);

    assert!(phone.matches(&mut match_phones, &choices).is_some());

    let phone = Pattern::new_any(None);
    let mut match_phones = Phones::new(&[Phone::Symbol("b")], 0, Direction::Rtl);

    assert!(phone.matches(&mut match_phones, &choices).is_some());

    let phone = Pattern::new_any(None);
    let mut match_phones = Phones::new(&[Phone::Bound], 0, Direction::Rtl);

    assert!(phone.matches(&mut match_phones, &choices).is_none());
}

#[test]
fn rtl_pattern_tests_agreeing_non_bounds() {
    let mut choices = Choices::default();

    let label = ScopeId::Name("label");

    let patterns = vec![Pattern::new_any(Some(&label)), Pattern::new_any(Some(&label))];
    let mut match_phones = Phones::new(&[Phone::Symbol("a"), Phone::Symbol("a")], 1, Direction::Rtl);

    let Some(new_choices) = PatternList::new(patterns).matches(&mut match_phones, &choices) else {
        panic!("agreeing bounds did not patch");
    };

    choices = new_choices;

    assert_eq!(choices.any(&label), Some(Phone::Symbol("a")));

    let choices = Choices::default();

    let label = ScopeId::Name("label");

    let patterns = vec![Pattern::new_any(Some(&label)), Pattern::new_any(Some(&label))];
    let mut match_phones = Phones::new(&[Phone::Symbol("a"), Phone::Symbol("b")], 1, Direction::Rtl);

    assert!(PatternList::new(patterns).matches(&mut match_phones, &choices).is_none());
}

#[test]
fn rtl_pattern_tests_unbounded_gap() {
    let choices = Choices::default();

    let pattern = Pattern::new_gap(None);
    let mut match_phones = Phones::new(&[], 0, Direction::Rtl);

    assert!(pattern.matches(&mut match_phones, &choices).is_some());
}

#[test]
fn rtl_pattern_tests_bounded_gap() {
    let choices = Choices::default();

    let mut patterns = PatternList::new(vec![
        Pattern::new_phone(Phone::Symbol("a")),
        Pattern::new_gap(None),
        Pattern::new_phone(Phone::Symbol("b")),
    ]);
    let mut match_phones = Phones::new(&[Phone::Symbol("a"), Phone::Symbol("b")], 1, Direction::Rtl);

    assert!(patterns.next_match(&mut match_phones, &choices).is_some());

    let mut patterns = PatternList::new(vec![
        Pattern::new_phone(Phone::Symbol("a")),
        Pattern::new_gap(None),
        Pattern::new_phone(Phone::Symbol("b")),
    ]);
    let mut match_phones = Phones::new(&[Phone::Symbol("a"), Phone::Symbol("-"), Phone::Symbol("b")], 2, Direction::Rtl);

    assert!(patterns.next_match(&mut match_phones, &choices).is_some());

    let mut patterns = PatternList::new(vec![
        Pattern::new_phone(Phone::Symbol("a")),
        Pattern::new_gap(None),
        Pattern::new_phone(Phone::Symbol("b")),
    ]);
    let mut match_phones = Phones::new(&[Phone::Symbol("a"), Phone::Symbol("-"), Phone::Symbol("-"), Phone::Symbol("-"), Phone::Symbol("b")], 4, Direction::Rtl);

    assert!(patterns.next_match(&mut match_phones, &choices).is_some());

    let mut patterns = PatternList::new(vec![
        Pattern::new_phone(Phone::Symbol("a")),
        Pattern::new_gap(None),
        Pattern::new_phone(Phone::Symbol("b")),
    ]);
    let mut match_phones = Phones::new(&[Phone::Symbol("a"), Phone::Bound, Phone::Symbol("b")], 2, Direction::Rtl);

    assert!(patterns.next_match(&mut match_phones, &choices).is_none());
}

#[test]
fn agreeing_gaps() {
    let choices = Choices::default();

    let label = "label";

    let mut patterns = PatternList::new(vec![
        Pattern::new_phone(Phone::Symbol("a")),
        Pattern::new_gap(Some(label)),
        Pattern::new_phone(Phone::Symbol("b")),
        Pattern::new_gap(Some(label)),
        Pattern::new_phone(Phone::Symbol("c")),
    ]);
    let mut match_phones = Phones::new(&[Phone::Symbol("a"), Phone::Symbol("-"), Phone::Symbol("b"), Phone::Symbol("c"),], 3, Direction::Rtl);

    assert!(patterns.next_match(&mut match_phones, &choices).is_none());

    let mut patterns = PatternList::new(vec![
        Pattern::new_phone(Phone::Symbol("a")),
        Pattern::new_gap(Some(label)),
        Pattern::new_phone(Phone::Symbol("b")),
        Pattern::new_gap(Some(label)),
        Pattern::new_phone(Phone::Symbol("c")),
    ]);
    let mut match_phones = Phones::new(&[Phone::Symbol("a"), Phone::Symbol("-"), Phone::Symbol("b"), Phone::Symbol("-"), Phone::Symbol("c"),], 4, Direction::Rtl);

    assert!(patterns.next_match(&mut match_phones, &choices).is_some());
    assert_eq!(patterns.len(), 5);

    let mut patterns = PatternList::new(vec![
        Pattern::new_phone(Phone::Symbol("a")),
        Pattern::new_gap(Some(label)),
        Pattern::new_phone(Phone::Symbol("b")),
        Pattern::new_gap(Some(label)),
        Pattern::new_phone(Phone::Symbol("c")),
    ]);
    let mut match_phones = Phones::new(&[Phone::Symbol("a"), Phone::Symbol("-"), Phone::Symbol("b"), Phone::Symbol("-"), Phone::Symbol("-"), Phone::Symbol("c"),], 5, Direction::Rtl);

    assert!(patterns.next_match(&mut match_phones, &choices).is_some());
    assert_eq!(patterns.len(), 6);
}

#[test]
fn rtl_pattern_tests_optional() {
    let choices = Choices::default();

    let mut pattern = Pattern::new_optional(vec![
        Pattern::new_phone(Phone::Symbol("a")),
        Pattern::new_phone(Phone::Symbol("b")),
        Pattern::new_phone(Phone::Symbol("c")),
    ], None);
    let mut match_phones = Phones::new(&[Phone::Symbol("a"), Phone::Symbol("b"), Phone::Symbol("c")], 2, Direction::Rtl);

    assert!(pattern.next_match(&mut match_phones, &choices).is_some());
    assert_eq!(pattern.len(), 3);

    let mut pattern = Pattern::new_optional(vec![
        Pattern::new_phone(Phone::Symbol("a")),
        Pattern::new_phone(Phone::Symbol("b")),
        Pattern::new_phone(Phone::Symbol("c")),
    ], None);
    let mut match_phones = Phones::new(&[Phone::Symbol("a"), Phone::Symbol("b"), Phone::Symbol("d")], 2, Direction::Rtl);

    assert!(pattern.next_match(&mut match_phones, &choices).is_some());
    assert_eq!(pattern.len(), 0);
}

#[test]
fn rtl_pattern_tests_agreeing_optionals() {
    let choices = Choices::default();

    let label = ScopeId::Name("label");

    let mut patterns = PatternList::new(vec![
        Pattern::new_optional(vec![
            Pattern::new_phone(Phone::Symbol("a")),
        ], Some(&label)),
        Pattern::new_optional(vec![
            Pattern::new_phone(Phone::Symbol("b")),
        ], Some(&label)),
    ]);
    let mut match_phones = Phones::new(&[Phone::Symbol("a"), Phone::Symbol("b")], 1, Direction::Rtl);

    assert!(patterns.next_match(&mut match_phones, &choices).is_some());
    assert_eq!(patterns.len(), 2);

    let mut patterns = PatternList::new(vec![
        Pattern::new_optional(vec![
            Pattern::new_phone(Phone::Symbol("a")),
        ], Some(&label)),
        Pattern::new_optional(vec![
            Pattern::new_phone(Phone::Symbol("b")),
        ], Some(&label)),
    ]);
    let mut match_phones = Phones::new(&[Phone::Symbol("b"), Phone::Symbol("b")], 1, Direction::Rtl);

    assert!(patterns.next_match(&mut match_phones, &choices).is_some());
    assert_eq!(patterns.len(), 0);
}

#[test]
fn rtl_pattern_tests_selection() {
    let choices = Choices::default();

    let mut pattern = Pattern::new_selection(vec![
        vec![Pattern::new_phone(Phone::Symbol("a"))],
        vec![Pattern::new_phone(Phone::Symbol("b"))],
        vec![Pattern::new_phone(Phone::Symbol("c"))],
    ], None);
    let mut match_phones = Phones::new(&[Phone::Symbol("a")], 0, Direction::Rtl);

    assert!(pattern.next_match(&mut match_phones, &choices).is_some());
    assert_eq!(pattern.len(), 1);

    let mut pattern = Pattern::new_selection(vec![
        vec![Pattern::new_phone(Phone::Symbol("a"))],
        vec![Pattern::new_phone(Phone::Symbol("b"))],
        vec![Pattern::new_phone(Phone::Symbol("c"))],
    ], None);
    let mut match_phones = Phones::new(&[Phone::Symbol("b")], 0, Direction::Rtl);

    assert!(pattern.next_match(&mut match_phones, &choices).is_some());
    assert_eq!(pattern.len(), 1);

    let mut pattern = Pattern::new_selection(vec![
        vec![Pattern::new_phone(Phone::Symbol("a"))],
        vec![Pattern::new_phone(Phone::Symbol("b"))],
        vec![Pattern::new_phone(Phone::Symbol("c"))],
    ], None);
    let mut match_phones = Phones::new(&[Phone::Symbol("c")], 0, Direction::Rtl);

    assert!(pattern.next_match(&mut match_phones, &choices).is_some());
    assert_eq!(pattern.len(), 1);
}

#[test]
fn agreeing_selection() {
    let choices = Choices::default();

    let label = ScopeId::Name("label");

    let mut patterns = PatternList::new(vec![
        Pattern::new_selection(vec![
            vec![Pattern::new_phone(Phone::Symbol("a"))],
            vec![Pattern::new_phone(Phone::Symbol("b"))],
            vec![Pattern::new_phone(Phone::Symbol("c"))],
        ], Some(&label)),
        Pattern::new_selection(vec![
            vec![Pattern::new_phone(Phone::Symbol("d"))],
            vec![Pattern::new_phone(Phone::Symbol("e"))],
            vec![Pattern::new_phone(Phone::Symbol("f"))],
        ], Some(&label)),
    ]);
    let mut match_phones = Phones::new(&[Phone::Symbol("b"), Phone::Symbol("e")], 1, Direction::Rtl);

    assert!(patterns.next_match(&mut match_phones, &choices).is_some());
    assert_eq!(patterns.len(), 2);

    let mut patterns = PatternList::new(vec![
        Pattern::new_selection(vec![
            vec![Pattern::new_phone(Phone::Symbol("a"))],
            vec![Pattern::new_phone(Phone::Symbol("b"))],
            vec![Pattern::new_phone(Phone::Symbol("c"))],
        ], Some(&label)),
        Pattern::new_selection(vec![
            vec![Pattern::new_phone(Phone::Symbol("d"))],
            vec![Pattern::new_phone(Phone::Symbol("e"))],
            vec![Pattern::new_phone(Phone::Symbol("f"))],
        ], Some(&label)),
    ]);
    let mut match_phones = Phones::new(&[Phone::Symbol("b"), Phone::Symbol("d")], 1, Direction::Rtl);

    assert!(patterns.next_match(&mut match_phones, &choices).is_none());
}

#[test]
fn rtl_rules_tests_matches_phones() {
    let mut rule_pattern = RulePattern::new(
        PatternList::new(vec![Pattern::new_phone(Phone::Symbol("a"))]),
        Vec::new(),
        Vec::new()
    ).expect("pattern construction should be valid");
    let match_phones = Phones::new(&[Phone::Symbol("a")], 0, Direction::Rtl);

    assert!(rule_pattern.next_match(&match_phones).expect("next match should not error").is_some());

    let mut rule_pattern = RulePattern::new(
        PatternList::new(vec![
            Pattern::new_phone(Phone::Symbol("a")),
            Pattern::new_phone(Phone::Symbol("b")),
            Pattern::new_phone(Phone::Symbol("c")),
        ]),
        Vec::new(),
        Vec::new()
    ).expect("pattern construction should be valid");
    let match_phones = Phones::new(&[Phone::Symbol("a"), Phone::Symbol("b"), Phone::Symbol("c")], 2, Direction::Rtl);

    assert!(rule_pattern.next_match(&match_phones).expect("next match should not error").is_some());
}

#[test]
fn rtl_rules_tests_match_phone_with_cond() {
    let before_b = vec![CondPattern::new(CondType::Pattern, PatternList::default(), PatternList::new(vec![Pattern::new_phone(Phone::Symbol("b"))]))];

    let mut rule_pattern = RulePattern::new(
        PatternList::new(vec![Pattern::new_phone(Phone::Symbol("a"))]),
        before_b.clone(),
        Vec::new(),
    ).expect("pattern construction should be valid");
    let match_phones = Phones::new(&[Phone::Symbol("a"), Phone::Symbol("b")], 0, Direction::Rtl);

    assert!(rule_pattern.next_match(&match_phones).expect("next match should not error").is_some());

    let mut rule_pattern = RulePattern::new(
        PatternList::new(vec![Pattern::new_phone(Phone::Symbol("a"))]),
        before_b.clone(),
        Vec::new(),
    ).expect("pattern construction should be valid");
    let match_phones = Phones::new(&[Phone::Symbol("a")], 0, Direction::Rtl);

    assert!(rule_pattern.next_match(&match_phones).expect("next match should not error").is_none());

    let mut rule_pattern = RulePattern::new(
        PatternList::new(vec![Pattern::new_phone(Phone::Symbol("a"))]),
        before_b,
        Vec::new(),
    ).expect("pattern construction should be valid");
    let match_phones = Phones::new(&[Phone::Symbol("b")], 0, Direction::Rtl);

    assert!(rule_pattern.next_match(&match_phones).expect("next match should not error").is_none());

    let after_b = vec![CondPattern::new(CondType::Pattern, PatternList::new(vec![Pattern::new_phone(Phone::Symbol("b"))]), PatternList::default())];

    let mut rule_pattern = RulePattern::new(
        PatternList::new(vec![Pattern::new_phone(Phone::Symbol("a"))]),
        after_b.clone(),
        Vec::new(),
    ).expect("pattern construction should be valid");
    let match_phones = Phones::new(&[Phone::Symbol("b"), Phone::Symbol("a")], 1, Direction::Rtl);

    assert!(rule_pattern.next_match(&match_phones).expect("next match should not error").is_some());

    let mut rule_pattern = RulePattern::new(
        PatternList::new(vec![Pattern::new_phone(Phone::Symbol("a"))]),
        after_b.clone(),
        Vec::new(),
    ).expect("pattern construction should be valid");
    let match_phones = Phones::new(&[Phone::Symbol("a")], 0, Direction::Rtl);

    assert!(rule_pattern.next_match(&match_phones).expect("next match should not error").is_none());

    let mut rule_pattern = RulePattern::new(
        PatternList::new(vec![Pattern::new_phone(Phone::Symbol("a"))]),
        after_b,
        Vec::new(),
    ).expect("pattern construction should be valid");
    let match_phones = Phones::new(&[Phone::Symbol("b")], 1, Direction::Rtl);

    assert!(rule_pattern.next_match(&match_phones).expect("next match should not error").is_none());
}

#[test]
fn rtl_rules_tests_match_phone_with_anti_cond() {
    let before_b = vec![CondPattern::new(CondType::Pattern, PatternList::default(), PatternList::new(vec![Pattern::new_phone(Phone::Symbol("b"))]))];

    let mut rule_pattern = RulePattern::new(
        PatternList::new(vec![Pattern::new_phone(Phone::Symbol("a"))]),
        Vec::new(),
        before_b.clone(),
    ).expect("pattern construction should be valid");
    let match_phones = Phones::new(&[Phone::Symbol("a"), Phone::Symbol("b")], 0, Direction::Rtl);

    assert!(rule_pattern.next_match(&match_phones).expect("next match should not error").is_none());

    let mut rule_pattern = RulePattern::new(
        PatternList::new(vec![Pattern::new_phone(Phone::Symbol("a"))]),
        Vec::new(),
        before_b.clone(),
    ).expect("pattern construction should be valid");
    let match_phones = Phones::new(&[Phone::Symbol("a")], 0, Direction::Rtl);

    assert!(rule_pattern.next_match(&match_phones).expect("next match should not error").is_some());

    let mut rule_pattern = RulePattern::new(
        PatternList::new(vec![Pattern::new_phone(Phone::Symbol("a"))]),
        Vec::new(),
        before_b,
    ).expect("pattern construction should be valid");
    let match_phones = Phones::new(&[Phone::Symbol("b")], 0, Direction::Rtl);

    assert!(rule_pattern.next_match(&match_phones).expect("next match should not error").is_none());

    let after_b = vec![CondPattern::new(CondType::Pattern, PatternList::new(vec![Pattern::new_phone(Phone::Symbol("b"))]), PatternList::default())];

    let mut rule_pattern = RulePattern::new(
        PatternList::new(vec![Pattern::new_phone(Phone::Symbol("a"))]),
        Vec::new(),
        after_b.clone(),
    ).expect("pattern construction should be valid");
    let match_phones = Phones::new(&[Phone::Symbol("b"), Phone::Symbol("a")], 1, Direction::Rtl);

    assert!(rule_pattern.next_match(&match_phones).expect("next match should not error").is_none());

    let mut rule_pattern = RulePattern::new(
        PatternList::new(vec![Pattern::new_phone(Phone::Symbol("a"))]),
        Vec::new(),
        after_b.clone(),
    ).expect("pattern construction should be valid");
    let match_phones = Phones::new(&[Phone::Symbol("a")], 0, Direction::Rtl);

    assert!(rule_pattern.next_match(&match_phones).expect("next match should not error").is_some());

    let mut rule_pattern = RulePattern::new(
        PatternList::new(vec![Pattern::new_phone(Phone::Symbol("a"))]),
        Vec::new(),
        after_b,
    ).expect("pattern construction should be valid");
    let match_phones = Phones::new(&[Phone::Symbol("b")], 0, Direction::Rtl);

    assert!(rule_pattern.next_match(&match_phones).expect("next match should not error").is_none());
}

#[test]
fn rtl_rules_tests_and_cond() {
    let mut between_b_and_c = CondPattern::new(CondType::Pattern, PatternList::new(vec![Pattern::new_phone(Phone::Symbol("b"))]), PatternList::default());
    let before_c = CondPattern::new(CondType::Pattern, PatternList::default(), PatternList::new(vec![Pattern::new_phone(Phone::Symbol("c"))]));

    between_b_and_c.add_and(AndType::And, before_c);

    let cond = vec![between_b_and_c];

    let mut rule_pattern = RulePattern::new(
        PatternList::new(vec![Pattern::new_phone(Phone::Symbol("a"))]),
        cond.clone(),
        Vec::new(),
    ).expect("pattern construction should be valid");
    let match_phones = Phones::new(&[Phone::Symbol("b"), Phone::Symbol("a"), Phone::Symbol("c")], 1, Direction::Rtl);

    assert!(rule_pattern.next_match(&match_phones).expect("next match should not error").is_some());

    let mut rule_pattern = RulePattern::new(
        PatternList::new(vec![Pattern::new_phone(Phone::Symbol("a"))]),
        cond.clone(),
        Vec::new(),
    ).expect("pattern construction should be valid");
    let match_phones = Phones::new(&[Phone::Symbol("a"), Phone::Symbol("c")], 0, Direction::Rtl);

    assert!(rule_pattern.next_match(&match_phones).expect("next match should not error").is_none());

    let mut rule_pattern = RulePattern::new(
        PatternList::new(vec![Pattern::new_phone(Phone::Symbol("a"))]),
        cond.clone(),
        Vec::new(),
    ).expect("pattern construction should be valid");
    let match_phones = Phones::new(&[Phone::Symbol("b"), Phone::Symbol("a")], 1, Direction::Rtl);

    assert!(rule_pattern.next_match(&match_phones).expect("next match should not error").is_none());

    let mut rule_pattern = RulePattern::new(
        PatternList::new(vec![Pattern::new_phone(Phone::Symbol("a"))]),
        cond,
        Vec::new(),
    ).expect("pattern construction should be valid");
    let match_phones = Phones::new(&[Phone::Symbol("a")], 0, Direction::Rtl);

    assert!(rule_pattern.next_match(&match_phones).expect("next match should not error").is_none());
}

#[test]
fn rtl_rules_tests_and_not_cond() {
    let mut between_b_and_c = CondPattern::new(CondType::Pattern, PatternList::new(vec![Pattern::new_phone(Phone::Symbol("b"))]), PatternList::default());
    let before_c = CondPattern::new(CondType::Pattern, PatternList::default(), PatternList::new(vec![Pattern::new_phone(Phone::Symbol("c"))]));

    between_b_and_c.add_and(AndType::AndNot, before_c);

    let cond = vec![between_b_and_c];

    let mut rule_pattern = RulePattern::new(
        PatternList::new(vec![Pattern::new_phone(Phone::Symbol("a"))]),
        cond.clone(),
        Vec::new(),
    ).expect("pattern construction should be valid");
    let match_phones = Phones::new(&[Phone::Symbol("b"), Phone::Symbol("a"), Phone::Symbol("c")], 1, Direction::Rtl);

    assert!(rule_pattern.next_match(&match_phones).expect("next match should not error").is_none());

    let mut rule_pattern = RulePattern::new(
        PatternList::new(vec![Pattern::new_phone(Phone::Symbol("a"))]),
        cond.clone(),
        Vec::new(),
    ).expect("pattern construction should be valid");
    let match_phones = Phones::new(&[Phone::Symbol("a"), Phone::Symbol("c")], 0, Direction::Rtl);

    assert!(rule_pattern.next_match(&match_phones).expect("next match should not error").is_none());

    let mut rule_pattern = RulePattern::new(
        PatternList::new(vec![Pattern::new_phone(Phone::Symbol("a"))]),
        cond.clone(),
        Vec::new(),
    ).expect("pattern construction should be valid");
    let match_phones = Phones::new(&[Phone::Symbol("b"), Phone::Symbol("a")], 1, Direction::Rtl);

    assert!(rule_pattern.next_match(&match_phones).expect("next match should not error").is_some());

    let mut rule_pattern = RulePattern::new(
        PatternList::new(vec![Pattern::new_phone(Phone::Symbol("a"))]),
        cond,
        Vec::new(),
    ).expect("pattern construction should be valid");
    let match_phones = Phones::new(&[Phone::Symbol("a")], 0, Direction::Rtl);

    assert!(rule_pattern.next_match(&match_phones).expect("next match should not error").is_none());
}

#[test]
fn agreement_between_pattern_halves() {
    let cond = vec![CondPattern::new(
        CondType::Pattern,
        PatternList::new(vec![
            Pattern::new_selection(
                vec![
                    vec![Pattern::new_phone(Phone::Symbol("c"))],
                    vec![Pattern::new_phone(Phone::Symbol("d"))],
                ],
                Some(&ScopeId::Name("label"))
            )
        ]),
        PatternList::new(vec![
            Pattern::new_selection(
                vec![
                    vec![Pattern::new_phone(Phone::Symbol("c"))],
                    vec![Pattern::new_phone(Phone::Symbol("d"))],
                ],
                Some(&ScopeId::Name("label"))
            )
        ])
    )];

    let mut rule_pattern = RulePattern::new(
        PatternList::new(vec![Pattern::new_phone(Phone::Symbol("a"))]),
        cond.clone(),
        Vec::new(),
    ).expect("pattern construction should be valid");
    let match_phones = Phones::new(&[Phone::Symbol("c"), Phone::Symbol("a"), Phone::Symbol("c")], 1, Direction::Rtl);

    assert!(rule_pattern.next_match(&match_phones).expect("next match should not error").is_some());

    let mut rule_pattern = RulePattern::new(
        PatternList::new(vec![Pattern::new_phone(Phone::Symbol("a"))]),
        cond,
        Vec::new(),
    ).expect("pattern construction should be valid");
    let match_phones = Phones::new(&[Phone::Symbol("c"), Phone::Symbol("a"), Phone::Symbol("d")], 1, Direction::Rtl);

    assert!(rule_pattern.next_match(&match_phones).expect("next match should not error").is_none());
}

#[test]
fn agreement_between_and_conds() {
    let mut cond = CondPattern::new(
        CondType::Pattern,
        PatternList::new(vec![
            Pattern::new_selection(
                vec![
                    vec![Pattern::new_phone(Phone::Symbol("c"))],
                    vec![Pattern::new_phone(Phone::Symbol("d"))],
                ],
                Some(&ScopeId::Name("label")),
            )
        ]),
        PatternList::default()
    );

    cond.add_and(AndType::And, CondPattern::new(
        CondType::Pattern,
        PatternList::default(), 
        PatternList::new(vec![
            Pattern::new_selection(
                vec![
                    vec![Pattern::new_phone(Phone::Symbol("c"))],
                    vec![Pattern::new_phone(Phone::Symbol("d"))],
                ],
                Some(&ScopeId::Name("label")),
            )
        ])
    ));

    let cond = vec![cond];

    let mut rule_pattern = RulePattern::new(
        PatternList::new(vec![Pattern::new_phone(Phone::Symbol("a"))]),
        cond.clone(),
        Vec::new(),
    ).expect("pattern construction should be valid");
    let match_phones = Phones::new(&[Phone::Symbol("c"), Phone::Symbol("a"), Phone::Symbol("c")], 1, Direction::Rtl);

    assert!(rule_pattern.next_match(&match_phones).expect("next match should not error").is_some());

    let mut rule_pattern = RulePattern::new(
        PatternList::new(vec![Pattern::new_phone(Phone::Symbol("a"))]),
        cond,
        Vec::new(),
    ).expect("pattern construction should be valid");
    let match_phones = Phones::new(&[Phone::Symbol("c"), Phone::Symbol("a"), Phone::Symbol("d")], 1, Direction::Rtl);

    assert!(rule_pattern.next_match(&match_phones).expect("next match should not error").is_none());
}

#[test]
fn complex_argeement() {
    let scope_id = ScopeId::Name("c");

    let cond = vec![CondPattern::new(CondType::Pattern, PatternList::default(), PatternList::new(vec![
        Pattern::new_selection(
            vec![
                vec![Pattern::new_phone(Phone::Symbol("b"))],
                vec![Pattern::new_any(None), Pattern::new_phone(Phone::Symbol("c"))],
            ],
            Some(&scope_id)
        )
    ]))];

    let anti_cond = vec![CondPattern::new(CondType::Pattern, PatternList::default(), PatternList::new(vec![
        Pattern::new_selection(
            vec![
                vec![Pattern::new_phone(Phone::Symbol("b"))],
                vec![Pattern::new_phone(Phone::Symbol("d"))],
            ],
            Some(&scope_id)
        )
    ]))];

    let mut rule_pattern = RulePattern::new(
        PatternList::new(vec![Pattern::new_phone(Phone::Symbol("a"))]),
        cond,
        anti_cond,
    ).expect("pattern construction should be valid");

    let match_phones = Phones::new(&[Phone::Symbol("a"), Phone::Symbol("b"), Phone::Symbol("c")], 0, Direction::Rtl);

    assert!(rule_pattern.next_match(&match_phones).expect("next match should not error").is_some());
}

#[test]
fn phone_match_phone_cond() {
    let conds = vec![CondPattern::new(CondType::Match, PatternList::new(vec![Pattern::new_phone(Phone::Symbol("a"))]), PatternList::new(vec![Pattern::new_phone(Phone::Symbol("a"))]))];

    let mut rule_pattern = RulePattern::new(PatternList::new(vec![Pattern::new_phone(Phone::Symbol("a"))]), conds, Vec::new()).expect("pattern construction should be valid");

    let match_phones = Phones::new(&[Phone::Symbol("a")], 0, Direction::Rtl);

    assert!(rule_pattern.next_match(&match_phones).is_ok_and(|res| res.is_some()));


    let bad_conds = vec![CondPattern::new(CondType::Match, PatternList::new(vec![Pattern::new_phone(Phone::Symbol("a"))]), PatternList::new(vec![Pattern::new_phone(Phone::Symbol("b"))]))];

    let mut rule_pattern = RulePattern::new(PatternList::new(vec![Pattern::new_phone(Phone::Symbol("a"))]), bad_conds, Vec::new()).expect("pattern construction should be valid");

    let match_phones = Phones::new(&[Phone::Symbol("a")], 0, Direction::Rtl);

    assert!(rule_pattern.next_match(&match_phones).is_ok_and(|res| res.is_none()));
}

#[test]
fn optional_match_conds() {
    let label = ScopeId::Name("label");

    let conds = vec![CondPattern::new(CondType::Match, PatternList::new(vec![Pattern::new_optional(vec![Pattern::new_phone(Phone::Symbol("a"))], Some(&label))]), PatternList::new(vec![Pattern::new_phone(Phone::Symbol("a"))]))];

    let mut rule_pattern = RulePattern::new(PatternList::new(vec![Pattern::new_phone(Phone::Symbol("a"))]), conds.clone(), Vec::new()).expect("pattern construction should be valid");

    let match_phones = Phones::new(&[Phone::Symbol("a")], 0, Direction::Rtl);

    assert!(rule_pattern.next_match(&match_phones).is_err());

    let input = PatternList::new(vec![Pattern::new_optional(vec![Pattern::new_phone(Phone::Symbol("a"))], Some(&label))]);

    let mut rule_pattern = RulePattern::new(input, conds, Vec::new()).expect("pattern construction should be valid");

    let match_phones = Phones::new(&[Phone::Symbol("a")], 0, Direction::Rtl);

    assert!(rule_pattern.next_match(&match_phones).is_ok_and(|res| res.is_some()));

    let conds = vec![CondPattern::new(CondType::Match, PatternList::new(vec![Pattern::new_phone(Phone::Symbol("a"))]), PatternList::new(vec![Pattern::new_optional(vec![Pattern::new_phone(Phone::Symbol("a"))], None)]))];

    let mut rule_pattern = RulePattern::new(PatternList::new(vec![Pattern::new_phone(Phone::Symbol("a"))]), conds, Vec::new()).expect("pattern construction should be valid");

    let match_phones = Phones::new(&[Phone::Symbol("a")], 0, Direction::Rtl);

    assert!(rule_pattern.next_match(&match_phones).is_ok_and(|res| res.is_some()));
}

#[test]
fn selection_match_conds() {
    let label = ScopeId::Name("label");

    let conds = vec![CondPattern::new(CondType::Match, PatternList::new(vec![Pattern::new_selection(vec![vec![Pattern::new_phone(Phone::Symbol("a"))], vec![Pattern::new_phone(Phone::Symbol("b"))]], Some(&label))]), PatternList::new(vec![Pattern::new_phone(Phone::Symbol("a"))]))];

    let mut rule_pattern = RulePattern::new(PatternList::new(vec![Pattern::new_phone(Phone::Symbol("a"))]), conds.clone(), Vec::new()).expect("pattern construction should be valid");

    let match_phones = Phones::new(&[Phone::Symbol("a")], 0, Direction::Rtl);

    assert!(rule_pattern.next_match(&match_phones).is_err());

    let input = PatternList::new(vec![Pattern::new_selection(vec![vec![Pattern::new_phone(Phone::Symbol("a"))], vec![Pattern::new_phone(Phone::Symbol("b"))]], Some(&label))]);

    let mut rule_pattern = RulePattern::new(input, conds, Vec::new()).expect("pattern construction should be valid");

    let match_phones = Phones::new(&[Phone::Symbol("a")], 0, Direction::Rtl);

    assert!(rule_pattern.next_match(&match_phones).is_ok_and(|res| res.is_some()));

    let conds = vec![CondPattern::new(CondType::Match, PatternList::new(vec![Pattern::new_phone(Phone::Symbol("a"))]), PatternList::new(vec![Pattern::new_selection(vec![vec![Pattern::new_phone(Phone::Symbol("a"))], vec![Pattern::new_phone(Phone::Symbol("b"))]], None)]))];

    let mut rule_pattern = RulePattern::new(PatternList::new(vec![Pattern::new_phone(Phone::Symbol("a"))]), conds, Vec::new()).expect("pattern construction should be valid");

    let match_phones = Phones::new(&[Phone::Symbol("a")], 0, Direction::Rtl);

    assert!(rule_pattern.next_match(&match_phones).is_ok_and(|res| res.is_some()));
}

#[test]
fn inequal_length_match_conds() {
    let conds = vec![CondPattern::new(CondType::Match, PatternList::new(vec![Pattern::new_phone(Phone::Symbol("a")), Pattern::new_phone(Phone::Symbol("b"))]), PatternList::new(vec![Pattern::new_phone(Phone::Symbol("a"))]))];
    
    let mut rule_pattern = RulePattern::new(PatternList::new(vec![Pattern::new_phone(Phone::Symbol("a"))]), conds, Vec::new()).expect("pattern construction should be valid");

    let match_phones = Phones::new(&[Phone::Symbol("a")], 0, Direction::Rtl);

    assert!(rule_pattern.next_match(&match_phones).is_ok_and(|res| res.is_none()));

    let conds = vec![CondPattern::new(CondType::Match, PatternList::new(vec![Pattern::new_phone(Phone::Symbol("a"))]), PatternList::new(vec![Pattern::new_phone(Phone::Symbol("a")), Pattern::new_phone(Phone::Symbol("b"))]))];
    
    let mut rule_pattern = RulePattern::new(PatternList::new(vec![Pattern::new_phone(Phone::Symbol("a"))]), conds, Vec::new()).expect("pattern construction should be valid");

    let match_phones = Phones::new(&[Phone::Symbol("a")], 0, Direction::Rtl);

    assert!(rule_pattern.next_match(&match_phones).is_ok_and(|res| res.is_none()));
}

#[test]
fn zero_input() {
    let mut rule_pattern = RulePattern::new(PatternList::default(), Vec::new(), Vec::new()).expect("pattern construction should be valid");

    assert!(rule_pattern.next_match(&Phones::new(&[], 0, Direction::Rtl)).expect("next match should not error").is_some());
    assert!(rule_pattern.next_match(&Phones::new(&[], 0, Direction::Rtl)).expect("next match should not error").is_none());


    let cond = vec![CondPattern::new(CondType::Pattern, PatternList::new(vec![Pattern::new_phone(Phone::Bound)]), PatternList::new(vec![Pattern::new_phone(Phone::Bound)]))];
    let mut rule_pattern = RulePattern::new(PatternList::default(), cond, Vec::new()).expect("pattern construction should be valid");

    assert!(rule_pattern.next_match(&Phones::new(&[], 0, Direction::Rtl)).expect("next match should not error").is_some());
    assert!(rule_pattern.next_match(&Phones::new(&[], 0, Direction::Rtl)).expect("next match should not error").is_none());
    
    let cond = vec![CondPattern::new(CondType::Pattern, PatternList::new(vec![Pattern::new_phone(Phone::Symbol("a"))]), PatternList::default())];
    let mut rule_pattern = RulePattern::new(PatternList::default(), cond, Vec::new()).expect("pattern construction should be valid");

    assert!(rule_pattern.next_match(&Phones::new(&[], 0, Direction::Rtl)).expect("next match should not error").is_none());
}
