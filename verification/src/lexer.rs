use vstd::prelude::*;
use vstd::string::StrSliceExecFns;
use crate::ir::{Break, IrLine, IrToken, Prefix, RuntimeCmd, SpecIrLine, SpecIrToken, ir_view, ir_line_view};
use crate::keywords::{
    AND_CHAR, ANY_CHAR, ARG_SEP_CHAR, BOUND_CHAR, COND_CHAR, DEFINITION_PREFIX, DOT_CHAR,
    ESCAPE_CHAR, INPUT_PATTERN_CHAR, LABEL_PREFIX, LTR_CHAR, MATCH_CHAR, NOT_CHAR,
    OPTIONAL_END_CHAR, OPTIONAL_START_CHAR, RTL_CHAR, SELECTION_END_CHAR, SELECTION_START_CHAR,
    SQUARE_END_CHAR, SQUARE_START_CHAR, VARIABLE_PREFIX,
};
use crate::phones::{Phone, SpecPhone, build_phone_list, is_whitespace, phones_view, spec_build_phone_list, spec_is_whitespace};
use crate::token_checker::IrStructureError;
use crate::tokens::{AndType, CondType, Direction, ScopeType, Shift, ShiftType};

verus! {

/// Errors that occur when source code is converted to ir tokens
#[derive(Debug, PartialEq, Eq)]
pub enum IrError<'s> {
    /// A definition without a name
    EmptyDefinition,
    /// A definition is used before it is defined
    UndefinedDefinition(&'s str),
    /// A variable is used before it is set
    UndefinedVariable(&'s str),
    /// A character that is reserved is used without an escape
    ReservedCharacter(char),
    /// A prefix without a name after it
    EmptyName(Prefix),
    /// The tokens of a line do not form a valid rule
    BadStructure(IrStructureError<'s>),
}

/// The mathematical value of an ir error
pub enum SpecIrError {
    EmptyDefinition,
    UndefinedDefinition(Seq<char>),
    UndefinedVariable(Seq<char>),
    ReservedCharacter(char),
    EmptyName(Prefix),
    BadStructure,
}

/// The mathematical value of an ir error
pub open spec fn ir_error_view<'s>(e: IrError<'s>) -> SpecIrError {
    match e {
        IrError::EmptyDefinition => SpecIrError::EmptyDefinition,
        IrError::UndefinedDefinition(name) => SpecIrError::UndefinedDefinition(name@),
        IrError::UndefinedVariable(name) => SpecIrError::UndefinedVariable(name@),
        IrError::ReservedCharacter(c) => SpecIrError::ReservedCharacter(c),
        IrError::EmptyName(p) => SpecIrError::EmptyName(p),
        IrError::BadStructure(_) => SpecIrError::BadStructure,
    }
}

/// Characters that end a phone and have a meaning of their own
pub open spec fn spec_is_special(c: char) -> bool {
    ||| c == LTR_CHAR
    ||| c == RTL_CHAR
    ||| c == COND_CHAR
    ||| c == AND_CHAR
    ||| c == OPTIONAL_START_CHAR
    ||| c == OPTIONAL_END_CHAR
    ||| c == SELECTION_START_CHAR
    ||| c == SELECTION_END_CHAR
    ||| c == ARG_SEP_CHAR
    ||| c == ANY_CHAR
    ||| c == BOUND_CHAR
    ||| c == MATCH_CHAR
    ||| c == LABEL_PREFIX
    ||| c == DEFINITION_PREFIX
    ||| c == VARIABLE_PREFIX
    ||| c == SQUARE_START_CHAR
    ||| c == SQUARE_END_CHAR
}

/// Determines whether `c` is a special character
pub fn is_special(c: char) -> (r: bool)
    ensures
        r == spec_is_special(c),
{
    c == LTR_CHAR || c == RTL_CHAR || c == COND_CHAR || c == AND_CHAR || c == OPTIONAL_START_CHAR
        || c == OPTIONAL_END_CHAR || c == SELECTION_START_CHAR || c == SELECTION_END_CHAR || c
        == ARG_SEP_CHAR || c == ANY_CHAR || c == BOUND_CHAR || c == MATCH_CHAR || c == LABEL_PREFIX
        || c == DEFINITION_PREFIX || c == VARIABLE_PREFIX || c == SQUARE_START_CHAR || c
        == SQUARE_END_CHAR
}

/// The end of the run of phone characters starting at `p`: characters that are neither
/// whitespace nor special, where an escape character takes the character after it along
pub open spec fn run_end(s: Seq<char>, p: int) -> int
    decreases s.len() - p,
{
    if p >= s.len() {
        s.len() as int
    } else if s[p] == ESCAPE_CHAR {
        if p + 1 < s.len() {
            run_end(s, p + 2)
        } else {
            s.len() as int
        }
    } else if spec_is_whitespace(s[p]) || spec_is_special(s[p]) {
        p
    } else {
        run_end(s, p + 1)
    }
}

proof fn lemma_run_end_bounds(s: Seq<char>, p: int)
    requires
        0 <= p <= s.len(),
    ensures
        p <= run_end(s, p) <= s.len(),
        p < s.len() && (s[p] == ESCAPE_CHAR || !(spec_is_whitespace(s[p]) || spec_is_special(s[p]))) ==> p < run_end(s, p),
    decreases s.len() - p,
{
    if p < s.len() {
        if s[p] == ESCAPE_CHAR {
            if p + 1 < s.len() {
                lemma_run_end_bounds(s, p + 2);
            }
        } else if !(spec_is_whitespace(s[p]) || spec_is_special(s[p])) {
            lemma_run_end_bounds(s, p + 1);
        }
    }
}

/// Finds the end of the run of phone characters starting at `p`
fn find_run_end(s: &str, n: usize, p: usize) -> (r: usize)
    requires
        n == s@.len(),
        p <= n,
    ensures
        r == run_end(s@, p as int),
        p <= r <= n,
{
    proof {
        lemma_run_end_bounds(s@, p as int);
    }
    let mut q = p;
    while q < n
        invariant
            n == s@.len(),
            p <= q <= n,
            run_end(s@, q as int) == run_end(s@, p as int),
        decreases n - q,
    {
        let c = s.get_char(q);
        if c == ESCAPE_CHAR {
            if q + 1 < n {
                q = q + 2;
            } else {
                return n;
            }
        } else if is_whitespace(c) || is_special(c) {
            return q;
        } else {
            q = q + 1;
        }
    }
    q
}

/// The latest value given to `name`
pub open spec fn spec_lookup(entries: Seq<(Seq<char>, Seq<SpecIrToken>)>, name: Seq<char>) -> Option<Seq<SpecIrToken>>
    decreases entries.len(),
{
    if entries.len() == 0 {
        None
    } else if entries.last().0 == name {
        Some(entries.last().1)
    } else {
        spec_lookup(entries.drop_last(), name)
    }
}

/// The token that a run of phone characters stands for
pub open spec fn word_token(r: Seq<char>) -> SpecIrToken {
    if r == seq![INPUT_PATTERN_CHAR] {
        SpecIrToken::CondType(CondType::Pattern)
    } else if r == seq![DOT_CHAR, DOT_CHAR] {
        SpecIrToken::Gap
    } else {
        SpecIrToken::Phone(SpecPhone::Symbol(r))
    }
}

/// The token that a special character (with the character after it) stands for,
/// and how many characters it takes
pub open spec fn special_token(c: char, next: Option<char>) -> (SpecIrToken, nat) {
    if c == LTR_CHAR || c == RTL_CHAR {
        let dir = if c == LTR_CHAR { Direction::Ltr } else { Direction::Rtl };
        if next == Some(c) {
            (SpecIrToken::Break(Break::Shift(Shift { dir, kind: ShiftType::Move })), 2)
        } else {
            (SpecIrToken::Break(Break::Shift(Shift { dir, kind: ShiftType::Stay })), 1)
        }
    } else if c == COND_CHAR {
        if next == Some(COND_CHAR) || next == Some(NOT_CHAR) {
            (SpecIrToken::Break(Break::AntiCond), 2)
        } else {
            (SpecIrToken::Break(Break::Cond), 1)
        }
    } else if c == AND_CHAR {
        if next == Some(NOT_CHAR) {
            (SpecIrToken::Break(Break::And(AndType::AndNot)), 2)
        } else {
            (SpecIrToken::Break(Break::And(AndType::And)), 1)
        }
    } else if c == OPTIONAL_START_CHAR {
        (SpecIrToken::ScopeStart(ScopeType::Optional), 1)
    } else if c == OPTIONAL_END_CHAR {
        (SpecIrToken::ScopeEnd(ScopeType::Optional), 1)
    } else if c == SELECTION_START_CHAR {
        (SpecIrToken::ScopeStart(ScopeType::Selection), 1)
    } else if c == SELECTION_END_CHAR {
        (SpecIrToken::ScopeEnd(ScopeType::Selection), 1)
    } else if c == ARG_SEP_CHAR {
        (SpecIrToken::ArgSep, 1)
    } else if c == ANY_CHAR {
        (SpecIrToken::Any, 1)
    } else if c == BOUND_CHAR {
        (SpecIrToken::Phone(SpecPhone::Bound), 1)
    } else {
        (SpecIrToken::CondType(CondType::Match), 1)
    }
}

/// The character after position `p`, if any
pub open spec fn next_char(s: Seq<char>, p: int) -> Option<char> {
    if p + 1 < s.len() {
        Some(s[p + 1])
    } else {
        None
    }
}

/// Adds tokens before the tokens of a successful tokenization
pub open spec fn prepend_tokens(ts: Seq<SpecIrToken>, r: Result<Seq<SpecIrToken>, SpecIrError>) -> Result<Seq<SpecIrToken>, SpecIrError> {
    match r {
        Ok(rest) => Ok(ts + rest),
        Err(e) => Err(e),
    }
}

/// The tokens of the text `s` from position `p`, with the given definitions and variables
pub open spec fn spec_lex(
    s: Seq<char>,
    p: int,
    defs: Seq<(Seq<char>, Seq<SpecIrToken>)>,
    vars: Seq<(Seq<char>, Seq<SpecIrToken>)>,
) -> Result<Seq<SpecIrToken>, SpecIrError>
    decreases s.len() - p,
{
    if p < 0 || p >= s.len() {
        Ok(Seq::empty())
    } else {
        let c = s[p];
        if spec_is_whitespace(c) {
            spec_lex(s, p + 1, defs, vars)
        } else if c == SQUARE_START_CHAR || c == SQUARE_END_CHAR {
            Err(SpecIrError::ReservedCharacter(c))
        } else if c == LABEL_PREFIX || c == DEFINITION_PREFIX || c == VARIABLE_PREFIX {
            let prefix = if c == LABEL_PREFIX {
                Prefix::Label
            } else if c == DEFINITION_PREFIX {
                Prefix::Definition
            } else {
                Prefix::Variable
            };
            let e = run_end(s, p + 1);
            if p + 1 < e <= s.len() {
                let name = s.subrange(p + 1, e);
                if c == LABEL_PREFIX {
                    prepend_tokens(seq![SpecIrToken::Label(name)], spec_lex(s, e, defs, vars))
                } else if c == DEFINITION_PREFIX {
                    match spec_lookup(defs, name) {
                        Some(ts) => prepend_tokens(ts, spec_lex(s, e, defs, vars)),
                        None => Err(SpecIrError::UndefinedDefinition(name)),
                    }
                } else {
                    match spec_lookup(vars, name) {
                        Some(ts) => prepend_tokens(ts, spec_lex(s, e, defs, vars)),
                        None => Err(SpecIrError::UndefinedVariable(name)),
                    }
                }
            } else {
                Err(SpecIrError::EmptyName(prefix))
            }
        } else if spec_is_special(c) {
            let (t, len) = special_token(c, next_char(s, p));
            prepend_tokens(seq![t], spec_lex(s, p + len, defs, vars))
        } else {
            let e = run_end(s, p);
            if p < e <= s.len() {
                prepend_tokens(seq![word_token(s.subrange(p, e))], spec_lex(s, e, defs, vars))
            } else {
                Ok(Seq::empty())
            }
        }
    }
}


/// The mathematical value of a list of named token lists
pub open spec fn entries_view<'s>(v: Seq<(&'s str, Vec<IrToken<'s>>)>) -> Seq<(Seq<char>, Seq<SpecIrToken>)> {
    v.map_values(|e: (&'s str, Vec<IrToken<'s>>)| (e.0@, ir_view(e.1@)))
}

/// Finds the latest token list given to `name`
fn lookup<'a, 's>(entries: &'a Vec<(&'s str, Vec<IrToken<'s>>)>, name: &str) -> (r: Option<&'a Vec<IrToken<'s>>>)
    ensures
        match r {
            Some(v) => spec_lookup(entries_view(entries@), name@) == Some(ir_view(v@)),
            None => spec_lookup(entries_view(entries@), name@) is None,
        },
{
    let mut k = entries.len();
    assert(entries@.subrange(0, k as int) =~= entries@);
    while k > 0
        invariant
            k <= entries@.len(),
            spec_lookup(entries_view(entries@), name@) == spec_lookup(entries_view(entries@.subrange(0, k as int)), name@),
        decreases k,
    {
        let ghost sub = entries_view(entries@.subrange(0, k as int));
        assert(sub.last() == (entries@[k - 1].0@, ir_view(entries@[k - 1].1@)));
        assert(sub.drop_last() =~= entries_view(entries@.subrange(0, k - 1)));
        if crate::strings::str_eq(entries[k - 1].0, name) {
            return Some(&entries[k - 1].1);
        }
        k -= 1;
    }
    None
}

/// Data that is created while source code is tokenized and lasts
/// longer than the tokenization of a single line: definitions and variables
#[derive(Debug, PartialEq, Eq)]
pub struct CompileTimeData<'s> {
    definitions: Vec<(&'s str, Vec<IrToken<'s>>)>,
    variables: Vec<(&'s str, Vec<IrToken<'s>>)>,
}

/// The mathematical value of compile time data: the definitions and the variables
pub struct SpecCompileTimeData {
    pub definitions: Seq<(Seq<char>, Seq<SpecIrToken>)>,
    pub variables: Seq<(Seq<char>, Seq<SpecIrToken>)>,
}

impl<'s> View for CompileTimeData<'s> {
    type V = SpecCompileTimeData;

    closed spec fn view(&self) -> SpecCompileTimeData {
        SpecCompileTimeData {
            definitions: entries_view(self.definitions@),
            variables: entries_view(self.variables@),
        }
    }
}

impl<'s> CompileTimeData<'s> {
    /// Creates data with no definitions and no variables
    pub fn new() -> (r: Self)
        ensures
            r@.definitions == Seq::<(Seq<char>, Seq<SpecIrToken>)>::empty(),
            r@.variables == Seq::<(Seq<char>, Seq<SpecIrToken>)>::empty(),
    {
        let r = CompileTimeData { definitions: Vec::new(), variables: Vec::new() };
        assert(r@.definitions =~= Seq::<(Seq<char>, Seq<SpecIrToken>)>::empty());
        assert(r@.variables =~= Seq::<(Seq<char>, Seq<SpecIrToken>)>::empty());
        r
    }

    /// Fetches the tokens of a definition
    pub fn get_definition(&self, name: &str) -> (r: Option<&Vec<IrToken<'s>>>)
        ensures
            match r {
                Some(v) => spec_lookup(self@.definitions, name@) == Some(ir_view(v@)),
                None => spec_lookup(self@.definitions, name@) is None,
            },
    {
        lookup(&self.definitions, name)
    }

    /// Fetches the tokens of a variable
    ///
    /// Returns an error if there is no variable of the given name
    pub fn get_variable<'a>(&self, name: &'a str) -> (r: Result<&Vec<IrToken<'s>>, IrError<'a>>)
        ensures
            match r {
                Ok(v) => spec_lookup(self@.variables, name@) == Some(ir_view(v@)),
                Err(e) => spec_lookup(self@.variables, name@) is None && e == IrError::UndefinedVariable(name),
            },
    {
        match lookup(&self.variables, name) {
            Some(v) => Ok(v),
            None => Err(IrError::UndefinedVariable(name)),
        }
    }

    /// Gives a definition its tokens, replacing any earlier ones
    pub fn set_definition(&mut self, name: &'s str, tokens: Vec<IrToken<'s>>)
        ensures
            final(self)@.definitions == old(self)@.definitions.push((name@, ir_view(tokens@))),
            final(self)@.variables == old(self)@.variables,
    {
        self.definitions.push((name, tokens));
        assert(self@.definitions =~= old(self)@.definitions.push((name@, ir_view(tokens@))));
    }

    /// Gives a variable its tokens, replacing any earlier ones
    pub fn set_variable_tokens(&mut self, name: &'s str, tokens: Vec<IrToken<'s>>)
        ensures
            final(self)@.variables == old(self)@.variables.push((name@, ir_view(tokens@))),
            final(self)@.definitions == old(self)@.definitions,
    {
        self.variables.push((name, tokens));
        assert(self@.variables =~= old(self)@.variables.push((name@, ir_view(tokens@))));
    }
}

/// The token that a run of phone characters stands for
fn make_word_token<'s>(s: &'s str, p: usize, e: usize) -> (t: IrToken<'s>)
    requires
        p < e <= s@.len(),
    ensures
        t@ == word_token(s@.subrange(p as int, e as int)),
{
    let w = s.substring_char(p, e);
    if e == p + 1 && s.get_char(p) == INPUT_PATTERN_CHAR {
        assert(w@ =~= seq![INPUT_PATTERN_CHAR]);
        IrToken::CondType(CondType::Pattern)
    } else if e - p == 2 && s.get_char(p) == DOT_CHAR && s.get_char(p + 1) == DOT_CHAR {
        assert(w@ =~= seq![DOT_CHAR, DOT_CHAR]);
        IrToken::Gap
    } else {
        proof {
            if w@ == seq![INPUT_PATTERN_CHAR] {
                assert(w@.len() == 1);
                assert(w@[0] == s@[p as int]);
            }
            if w@ == seq![DOT_CHAR, DOT_CHAR] {
                assert(w@.len() == 2);
                assert(w@[0] == s@[p as int]);
                assert(w@[1] == s@[p + 1]);
            }
        }
        IrToken::Phone(Phone::Symbol(w))
    }
}

/// The token that a special character (with the character after it) stands for,
/// and how many characters it takes
fn make_special_token<'s>(c: char, next: Option<char>) -> (r: (IrToken<'s>, usize))
    requires
        spec_is_special(c),
        c != SQUARE_START_CHAR && c != SQUARE_END_CHAR,
        c != LABEL_PREFIX && c != DEFINITION_PREFIX && c != VARIABLE_PREFIX,
    ensures
        (r.0@, r.1 as nat) == special_token(c, next),
{
    if c == LTR_CHAR || c == RTL_CHAR {
        let dir = if c == LTR_CHAR { Direction::Ltr } else { Direction::Rtl };
        if next == Some(c) {
            (IrToken::Break(Break::Shift(Shift { dir, kind: ShiftType::Move })), 2)
        } else {
            (IrToken::Break(Break::Shift(Shift { dir, kind: ShiftType::Stay })), 1)
        }
    } else if c == COND_CHAR {
        if next == Some(COND_CHAR) || next == Some(NOT_CHAR) {
            (IrToken::Break(Break::AntiCond), 2)
        } else {
            (IrToken::Break(Break::Cond), 1)
        }
    } else if c == AND_CHAR {
        if next == Some(NOT_CHAR) {
            (IrToken::Break(Break::And(AndType::AndNot)), 2)
        } else {
            (IrToken::Break(Break::And(AndType::And)), 1)
        }
    } else if c == OPTIONAL_START_CHAR {
        (IrToken::ScopeStart(ScopeType::Optional), 1)
    } else if c == OPTIONAL_END_CHAR {
        (IrToken::ScopeEnd(ScopeType::Optional), 1)
    } else if c == SELECTION_START_CHAR {
        (IrToken::ScopeStart(ScopeType::Selection), 1)
    } else if c == SELECTION_END_CHAR {
        (IrToken::ScopeEnd(ScopeType::Selection), 1)
    } else if c == ARG_SEP_CHAR {
        (IrToken::ArgSep, 1)
    } else if c == ANY_CHAR {
        (IrToken::Any, 1)
    } else if c == BOUND_CHAR {
        (IrToken::Phone(Phone::Bound), 1)
    } else {
        (IrToken::CondType(CondType::Match), 1)
    }
}

/// Adding tokens in two steps is adding them in one
proof fn lemma_prepend_tokens_assoc(a: Seq<SpecIrToken>, b: Seq<SpecIrToken>, r: Result<Seq<SpecIrToken>, SpecIrError>)
    ensures
        prepend_tokens(a, prepend_tokens(b, r)) == prepend_tokens(a + b, r),
{
    match r {
        Ok(rest) => {
            assert(a + (b + rest) =~= (a + b) + rest);
        },
        Err(_) => {},
    }
}

/// Appends copies of `ts` to `out`
fn append_tokens<'s>(out: &mut Vec<IrToken<'s>>, ts: &Vec<IrToken<'s>>)
    ensures
        ir_view(final(out)@) == ir_view(old(out)@) + ir_view(ts@),
{
    let mut k: usize = 0;
    assert(ir_view(ts@.subrange(0, 0)) =~= Seq::<SpecIrToken>::empty());
    assert(ir_view(out@) =~= ir_view(old(out)@) + ir_view(ts@.subrange(0, 0)));
    while k < ts.len()
        invariant
            k <= ts@.len(),
            ir_view(out@) == ir_view(old(out)@) + ir_view(ts@.subrange(0, k as int)),
        decreases ts@.len() - k,
    {
        let ghost prev = out@;
        out.push(ts[k]);
        assert(ts@.subrange(0, k + 1) =~= ts@.subrange(0, k as int).push(ts@[k as int]));
        assert(ir_view(ts@.subrange(0, k + 1)) =~= ir_view(ts@.subrange(0, k as int)).push(ts@[k as int]@));
        assert(ir_view(out@) =~= ir_view(prev).push(ts@[k as int]@));
        k += 1;
        assert(ir_view(out@) =~= ir_view(old(out)@) + ir_view(ts@.subrange(0, k as int)));
    }
    assert(ts@.subrange(0, k as int) =~= ts@);
}

/// Tokenizes the text `s` from position `p` with the definitions and variables of `data`
pub fn lex<'s>(s: &'s str, p: usize, data: &CompileTimeData<'s>) -> (r: Result<Vec<IrToken<'s>>, IrError<'s>>)
    requires
        p <= s@.len(),
    ensures
        match r {
            Ok(v) => spec_lex(s@, p as int, data@.definitions, data@.variables) == Ok::<_, SpecIrError>(ir_view(v@)),
            Err(e) => spec_lex(s@, p as int, data@.definitions, data@.variables) == Err::<Seq<SpecIrToken>, _>(ir_error_view(e)),
        },
{
    let n = s.unicode_len();
    let ghost defs = data@.definitions;
    let ghost vars = data@.variables;
    let mut out: Vec<IrToken<'s>> = Vec::new();
    let mut q = p;
    assert(ir_view(out@) =~= Seq::<SpecIrToken>::empty());
    proof {
        lemma_prepend_tokens_assoc(Seq::empty(), Seq::empty(), spec_lex(s@, q as int, defs, vars));
        match spec_lex(s@, q as int, defs, vars) {
            Ok(rest) => { assert(Seq::<SpecIrToken>::empty() + rest =~= rest); },
            Err(_) => {},
        }
    }
    while q < n
        invariant
            n == s@.len(),
            p <= q <= n,
            defs == data@.definitions,
            vars == data@.variables,
            spec_lex(s@, p as int, defs, vars) == prepend_tokens(ir_view(out@), spec_lex(s@, q as int, defs, vars)),
        decreases n - q,
    {
        let c = s.get_char(q);
        let ghost before = ir_view(out@);
        if is_whitespace(c) {
            q = q + 1;
        } else if c == SQUARE_START_CHAR || c == SQUARE_END_CHAR {
            return Err(IrError::ReservedCharacter(c));
        } else if c == LABEL_PREFIX || c == DEFINITION_PREFIX || c == VARIABLE_PREFIX {
            let e = find_run_end(s, n, q + 1);
            if e == q + 1 {
                let prefix = if c == LABEL_PREFIX {
                    Prefix::Label
                } else if c == DEFINITION_PREFIX {
                    Prefix::Definition
                } else {
                    Prefix::Variable
                };
                return Err(IrError::EmptyName(prefix));
            }
            let name = s.substring_char(q + 1, e);
            assert(name@ == s@.subrange(q + 1, e as int));
            let ghost mut added: Seq<SpecIrToken> = Seq::empty();
            if c == LABEL_PREFIX {
                out.push(IrToken::Label(name));
                proof {
                    added = seq![SpecIrToken::Label(name@)];
                }
                assert(ir_view(out@) =~= before + added);
            } else {
                let found = if c == DEFINITION_PREFIX {
                    data.get_definition(name)
                } else {
                    lookup(&data.variables, name)
                };
                match found {
                    Some(ts) => {
                        append_tokens(&mut out, ts);
                        proof {
                            added = ir_view(ts@);
                        }
                    },
                    None => {
                        if c == DEFINITION_PREFIX {
                            return Err(IrError::UndefinedDefinition(name));
                        } else {
                            return Err(IrError::UndefinedVariable(name));
                        }
                    },
                }
            }
            proof {
                assert(ir_view(out@) == before + added);
                assert(spec_lex(s@, q as int, defs, vars) == prepend_tokens(added, spec_lex(s@, e as int, defs, vars)));
                lemma_prepend_tokens_assoc(before, added, spec_lex(s@, e as int, defs, vars));
            }
            q = e;
        } else if is_special(c) {
            let next = if q + 1 < n { Some(s.get_char(q + 1)) } else { None };
            let (t, len) = make_special_token(c, next);
            out.push(t);
            assert(ir_view(out@) =~= before + seq![t@]);
            assert(next_char(s@, q as int) == next);
            assert(q + len <= n);
            proof {
                lemma_prepend_tokens_assoc(before, seq![t@], spec_lex(s@, q + len, defs, vars));
            }
            q = q + len;
        } else {
            let e = find_run_end(s, n, q);
            proof {
                lemma_run_end_bounds(s@, q as int);
            }
            let t = make_word_token(s, q, e);
            out.push(t);
            assert(ir_view(out@) =~= before + seq![t@]);
            proof {
                lemma_prepend_tokens_assoc(before, seq![t@], spec_lex(s@, e as int, defs, vars));
            }
            q = e;
        }
    }
    proof {
        assert(ir_view(out@) + Seq::<SpecIrToken>::empty() =~= ir_view(out@));
    }
    Ok(out)
}


/// The tokens of a list of phones: each phone is a phone token
pub open spec fn phone_tokens(ps: Seq<SpecPhone>) -> Seq<SpecIrToken> {
    ps.map_values(|p: SpecPhone| SpecIrToken::Phone(p))
}

impl<'s> CompileTimeData<'s> {
    /// Tokenizes `source` as code and gives the tokens to the variable `name`
    pub fn set_variable(&mut self, name: &'s str, source: &'s str) -> (r: Result<(), IrError<'s>>)
        ensures
            match spec_lex(source@, 0, old(self)@.definitions, old(self)@.variables) {
                Ok(ts) => r is Ok && final(self)@.variables == old(self)@.variables.push((name@, ts))
                    && final(self)@.definitions == old(self)@.definitions,
                Err(e) => r matches Err(x) && ir_error_view(x) == e && final(self)@ == old(self)@,
            },
    {
        let tokens = lex(source, 0, self)?;
        self.set_variable_tokens(name, tokens);
        Ok(())
    }

    /// Gives the variable `name` the phones of a text: each character (with the
    /// escapes before it) a phone, whitespace boundaries
    pub fn set_variable_phones(&mut self, name: &'s str, text: &'s str)
        ensures
            final(self)@.variables == old(self)@.variables.push((name@, phone_tokens(spec_build_phone_list(text@)))),
            final(self)@.definitions == old(self)@.definitions,
    {
        let phones = build_phone_list(text);
        let mut tokens: Vec<IrToken<'s>> = Vec::new();
        let mut k: usize = 0;
        while k < phones.len()
            invariant
                k <= phones@.len(),
                ir_view(tokens@) == phone_tokens(phones_view(phones@).subrange(0, k as int)),
            decreases phones@.len() - k,
        {
            let ghost prev = tokens@;
            tokens.push(IrToken::Phone(phones[k]));
            assert(tokens@ == prev.push(IrToken::Phone(phones@[k as int])));
            assert(ir_view(tokens@) =~= ir_view(prev).push(SpecIrToken::Phone(phones@[k as int]@)));
            assert(phones_view(phones@).subrange(0, k + 1) =~= phones_view(phones@).subrange(0, k as int).push(phones@[k as int]@));
            k += 1;
            assert(ir_view(tokens@) =~= phone_tokens(phones_view(phones@).subrange(0, k as int)));
        }
        assert(phones_view(phones@).subrange(0, k as int) =~= phones_view(phones@));
        self.set_variable_tokens(name, tokens);
    }
}

/// The latest definition of a name is what the name stands for; other names keep theirs
pub proof fn lemma_define_then_lookup(
    defs: Seq<(Seq<char>, Seq<SpecIrToken>)>,
    name: Seq<char>,
    ts: Seq<SpecIrToken>,
    other: Seq<char>,
)
    ensures
        spec_lookup(defs.push((name, ts)), name) == Some(ts),
        other != name ==> spec_lookup(defs.push((name, ts)), other) == spec_lookup(defs, other),
{
    assert(defs.push((name, ts)).drop_last() =~= defs);
}

/// Whether a text can be a name after a prefix: characters that are neither whitespace,
/// special nor escapes
pub open spec fn is_plain_name(name: Seq<char>) -> bool {
    &&& name.len() > 0
    &&& forall|i: int| 0 <= i < name.len() ==> {
        let c = #[trigger] name[i];
        !spec_is_whitespace(c) && !spec_is_special(c) && c != ESCAPE_CHAR
    }
}

proof fn lemma_run_end_plain(s: Seq<char>, p: int)
    requires
        0 <= p <= s.len(),
        forall|i: int| p <= i < s.len() ==> {
            let c = #[trigger] s[i];
            !spec_is_whitespace(c) && !spec_is_special(c) && c != ESCAPE_CHAR
        },
    ensures
        run_end(s, p) == s.len(),
    decreases s.len() - p,
{
    if p < s.len() {
        lemma_run_end_plain(s, p + 1);
    }
}

/// A call of a definition stands for the tokens the definition holds,
/// and one of a name with no definition is an error
pub proof fn lemma_definition_call(
    name: Seq<char>,
    defs: Seq<(Seq<char>, Seq<SpecIrToken>)>,
    vars: Seq<(Seq<char>, Seq<SpecIrToken>)>,
)
    requires
        is_plain_name(name),
    ensures
        spec_lex(seq![DEFINITION_PREFIX] + name, 0, defs, vars) == match spec_lookup(defs, name) {
            Some(ts) => Ok::<Seq<SpecIrToken>, SpecIrError>(ts),
            None => Err(SpecIrError::UndefinedDefinition(name)),
        },
{
    let s = seq![DEFINITION_PREFIX] + name;
    assert forall|i: int| 1 <= i < s.len() implies {
        let c = #[trigger] s[i];
        !spec_is_whitespace(c) && !spec_is_special(c) && c != ESCAPE_CHAR
    } by {
        assert(s[i] == name[i - 1]);
    }
    lemma_run_end_plain(s, 1);
    assert(s.subrange(1, s.len() as int) =~= name);
    assert(s[0] == DEFINITION_PREFIX);
    assert(!spec_is_whitespace(DEFINITION_PREFIX));
    assert(spec_lex(s, s.len() as int, defs, vars) == Ok::<Seq<SpecIrToken>, SpecIrError>(Seq::empty()));
    if let Some(ts) = spec_lookup(defs, name) {
        assert(ts + Seq::<SpecIrToken>::empty() =~= ts);
    }
}

/// What a name stands for is what the latest entry with that name holds: nothing when no
/// entry has the name
pub proof fn lemma_lookup_latest(entries: Seq<(Seq<char>, Seq<SpecIrToken>)>, name: Seq<char>)
    ensures
        spec_lookup(entries, name) is None <==> (forall|i: int| 0 <= i < entries.len() ==> #[trigger] entries[i].0 != name),
        spec_lookup(entries, name) is Some ==> exists|i: int| {
            &&& 0 <= i < entries.len()
            &&& #[trigger] entries[i].0 == name
            &&& spec_lookup(entries, name) == Some(entries[i].1)
            &&& forall|j: int| i < j < entries.len() ==> #[trigger] entries[j].0 != name
        },
    decreases entries.len(),
{
    if entries.len() > 0 {
        let rest = entries.drop_last();
        lemma_lookup_latest(rest, name);
        let last = entries.len() - 1;
        if entries.last().0 == name {
            assert(entries[last].0 == name);
        } else {
            assert forall|i: int| 0 <= i < rest.len() implies rest[i] == #[trigger] entries[i] by {}
            if spec_lookup(rest, name) is Some {
                let i = choose|i: int| {
                    &&& 0 <= i < rest.len()
                    &&& #[trigger] rest[i].0 == name
                    &&& spec_lookup(rest, name) == Some(rest[i].1)
                    &&& forall|j: int| i < j < rest.len() ==> #[trigger] rest[j].0 != name
                };
                assert(entries[i] == rest[i]);
                assert forall|j: int| i < j < entries.len() implies #[trigger] entries[j].0 != name by {
                    if j < rest.len() {
                        assert(entries[j] == rest[j]);
                    }
                }
            } else {
                assert forall|i: int| 0 <= i < entries.len() implies #[trigger] entries[i].0 != name by {
                    if i < rest.len() {
                        assert(entries[i] == rest[i]);
                    }
                }
            }
        }
    }
}

/// Setting a variable from source code succeeds exactly when the source tokenizes with
/// the data as it was; then the variable stands for those tokens and every other name
/// keeps what it stood for, and on failure nothing changes
pub proof fn lemma_set_then_get_variable(
    before: SpecCompileTimeData,
    after: SpecCompileTimeData,
    succeeded: bool,
    name: Seq<char>,
    source: Seq<char>,
    other: Seq<char>,
)
    requires
        match spec_lex(source, 0, before.definitions, before.variables) {
            Ok(ts) => succeeded && after.variables == before.variables.push((name, ts)) && after.definitions == before.definitions,
            Err(_) => !succeeded && after == before,
        },
    ensures
        succeeded <==> spec_lex(source, 0, before.definitions, before.variables) is Ok,
        match spec_lex(source, 0, before.definitions, before.variables) {
            Ok(ts) => spec_lookup(after.variables, name) == Some(ts),
            Err(_) => spec_lookup(after.variables, other) == spec_lookup(before.variables, other),
        },
        other != name ==> spec_lookup(after.variables, other) == spec_lookup(before.variables, other),
        after.definitions == before.definitions,
{
    if let Ok(ts) = spec_lex(source, 0, before.definitions, before.variables) {
        lemma_define_then_lookup(before.variables, name, ts, other);
    }
}

/// New data holds no variable: every name is undefined
pub proof fn lemma_no_variables_at_first(name: Seq<char>)
    ensures
        spec_lookup(Seq::<(Seq<char>, Seq<SpecIrToken>)>::empty(), name) is None,
{
}


/// `/!` starts an anti-condition just as `//` does: a `/` followed by `!` is one
/// anti-condition break that takes both characters, and lexing goes on after them
pub proof fn lemma_slash_bang_is_anti_cond(
    s: Seq<char>,
    p: int,
    defs: Seq<(Seq<char>, Seq<SpecIrToken>)>,
    vars: Seq<(Seq<char>, Seq<SpecIrToken>)>,
)
    requires
        0 <= p,
        p + 1 < s.len(),
        s[p] == COND_CHAR,
        s[p + 1] == NOT_CHAR || s[p + 1] == COND_CHAR,
    ensures
        spec_lex(s, p, defs, vars) == prepend_tokens(seq![SpecIrToken::Break(Break::AntiCond)], spec_lex(s, p + 2, defs, vars)),
{
    assert(next_char(s, p) == Some(s[p + 1]));
}
}
