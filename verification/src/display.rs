use vstd::prelude::*;
use crate::ir::{Break, IrToken, Prefix, SpecIrToken};
use crate::keywords::{
    AND_CHAR, ANY_CHAR, ARG_SEP_CHAR, COND_CHAR, DEFINITION_PREFIX, DOT_CHAR, INPUT_PATTERN_CHAR,
    LABEL_PREFIX, LTR_CHAR, MATCH_CHAR, NOT_CHAR, OPTIONAL_END_CHAR, OPTIONAL_START_CHAR, RTL_CHAR,
    SELECTION_END_CHAR, SELECTION_START_CHAR, VARIABLE_PREFIX,
};
use crate::matcher::{lemma_opts_size_elem, lemma_toks_size_elem, opts_size, tok_size, toks_size};
use crate::phones::{Phone, spec_phone_str};
use crate::rules::{
    Cond, RuleStructureError, RuleToken, SoundChangeRule, SpecCond, SpecRule, SpecRuleToken, cond_view, lemma_options_view_index,
    lemma_options_view_len, lemma_tokens_view_index, lemma_tokens_view_len, options_view, rule_view, token_view,
    tokens_view,
};
use crate::token_checker::IrStructureError;
use crate::tokens::{AndType, CondType, Direction, LabelType, ScopeId, ScopeType, Shift, SpecScopeId};

verus! {

// ---------------------------------------------------------------------------
// The written form of tokens

/// A direction as it is written: `>` or `<`
pub open spec fn direction_text(d: Direction) -> Seq<char> {
    match d {
        Direction::Ltr => seq![LTR_CHAR],
        Direction::Rtl => seq![RTL_CHAR],
    }
}

/// A shift as it is written: its direction once for a shift that stays,
/// twice for one that moves on
pub open spec fn shift_text(s: Shift) -> Seq<char> {
    match s.kind {
        crate::tokens::ShiftType::Stay => direction_text(s.dir),
        crate::tokens::ShiftType::Move => direction_text(s.dir) + direction_text(s.dir),
    }
}

/// The character that opens a scope of the type
pub open spec fn scope_start_text(k: ScopeType) -> Seq<char> {
    match k {
        ScopeType::Optional => seq![OPTIONAL_START_CHAR],
        ScopeType::Selection => seq![SELECTION_START_CHAR],
    }
}

/// The character that closes a scope of the type
pub open spec fn scope_end_text(k: ScopeType) -> Seq<char> {
    match k {
        ScopeType::Optional => seq![OPTIONAL_END_CHAR],
        ScopeType::Selection => seq![SELECTION_END_CHAR],
    }
}

/// A scope type as it is written: its bounds around three dots
pub open spec fn scope_type_text(k: ScopeType) -> Seq<char> {
    scope_start_text(k) + seq![DOT_CHAR, DOT_CHAR, DOT_CHAR] + scope_end_text(k)
}

/// A conditional and as it is written: `&` or `&!`
pub open spec fn and_type_text(t: AndType) -> Seq<char> {
    match t {
        AndType::And => seq![AND_CHAR],
        AndType::AndNot => seq![AND_CHAR, NOT_CHAR],
    }
}

/// The focus of a condition as it is written: `_` or `=`
pub open spec fn cond_type_text(c: CondType) -> Seq<char> {
    match c {
        CondType::Pattern => seq![INPUT_PATTERN_CHAR],
        CondType::Match => seq![MATCH_CHAR],
    }
}

/// A prefix as it is written: `@`, `$` or `%`
pub open spec fn prefix_text(p: Prefix) -> Seq<char> {
    match p {
        Prefix::Definition => seq![DEFINITION_PREFIX],
        Prefix::Label => seq![LABEL_PREFIX],
        Prefix::Variable => seq![VARIABLE_PREFIX],
    }
}

/// A break as it is written: its shift, `/`, `//`, or its conditional and
pub open spec fn break_text(b: Break) -> Seq<char> {
    match b {
        Break::Shift(s) => shift_text(s),
        Break::Cond => seq![COND_CHAR],
        Break::AntiCond => seq![COND_CHAR, COND_CHAR],
        Break::And(t) => and_type_text(t),
    }
}

/// A label as it is written: its name after `$`
pub open spec fn label_text(name: Seq<char>) -> Seq<char> {
    seq![LABEL_PREFIX] + name
}

/// An ir token as it is written
pub open spec fn ir_token_text(t: SpecIrToken) -> Seq<char> {
    match t {
        SpecIrToken::Phone(p) => spec_phone_str(p),
        SpecIrToken::Label(name) => label_text(name),
        SpecIrToken::Break(b) => break_text(b),
        SpecIrToken::Any => seq![ANY_CHAR],
        SpecIrToken::ArgSep => seq![ARG_SEP_CHAR],
        SpecIrToken::Gap => seq![DOT_CHAR, DOT_CHAR],
        SpecIrToken::CondType(c) => cond_type_text(c),
        SpecIrToken::ScopeStart(k) => scope_start_text(k),
        SpecIrToken::ScopeEnd(k) => scope_end_text(k),
    }
}

impl Direction {
    /// The direction as it is written
    pub fn to_string(&self) -> (r: String)
        ensures
            r@ == direction_text(*self),
    {
        match self {
            Direction::Ltr => {
                proof {
                    reveal_strlit(">");
                }
                String::from_str(">")
            },
            Direction::Rtl => {
                proof {
                    reveal_strlit("<");
                }
                String::from_str("<")
            },
        }
    }
}

impl Shift {
    /// The shift as it is written
    pub fn to_string(&self) -> (r: String)
        ensures
            r@ == shift_text(*self),
    {
        let mut r = self.dir.to_string();
        if let crate::tokens::ShiftType::Move = self.kind {
            let again = self.dir.to_string();
            r.append(again.as_str());
        }
        r
    }
}

impl ScopeType {
    /// The scope type as it is written: its bounds around three dots
    pub fn to_string(&self) -> (r: String)
        ensures
            r@ == scope_type_text(*self),
    {
        match self {
            ScopeType::Optional => {
                proof {
                    reveal_strlit("(...)");
                }
                String::from_str("(...)")
            },
            ScopeType::Selection => {
                proof {
                    reveal_strlit("{...}");
                }
                String::from_str("{...}")
            },
        }
    }
}

impl AndType {
    /// The conditional and as it is written
    pub fn to_string(&self) -> (r: String)
        ensures
            r@ == and_type_text(*self),
    {
        match self {
            AndType::And => {
                proof {
                    reveal_strlit("&");
                }
                String::from_str("&")
            },
            AndType::AndNot => {
                proof {
                    reveal_strlit("&!");
                }
                String::from_str("&!")
            },
        }
    }
}

impl CondType {
    /// The focus of a condition as it is written
    pub fn to_string(&self) -> (r: String)
        ensures
            r@ == cond_type_text(*self),
    {
        match self {
            CondType::Pattern => {
                proof {
                    reveal_strlit("_");
                }
                String::from_str("_")
            },
            CondType::Match => {
                proof {
                    reveal_strlit("=");
                }
                String::from_str("=")
            },
        }
    }
}

impl Prefix {
    /// The prefix as it is written
    pub fn to_string(&self) -> (r: String)
        ensures
            r@ == prefix_text(*self),
    {
        match self {
            Prefix::Definition => {
                proof {
                    reveal_strlit("@");
                }
                String::from_str("@")
            },
            Prefix::Label => {
                proof {
                    reveal_strlit("$");
                }
                String::from_str("$")
            },
            Prefix::Variable => {
                proof {
                    reveal_strlit("%");
                }
                String::from_str("%")
            },
        }
    }
}

impl Break {
    /// The break as it is written
    pub fn to_string(&self) -> (r: String)
        ensures
            r@ == break_text(*self),
    {
        match self {
            Break::Shift(s) => s.to_string(),
            Break::Cond => {
                proof {
                    reveal_strlit("/");
                }
                String::from_str("/")
            },
            Break::AntiCond => {
                proof {
                    reveal_strlit("//");
                }
                String::from_str("//")
            },
            Break::And(t) => t.to_string(),
        }
    }
}

/// The label of a name as it is written
fn label_string(name: &str) -> (r: String)
    ensures
        r@ == label_text(name@),
{
    proof {
        reveal_strlit("$");
    }
    let mut r = String::from_str("$");
    r.append(name);
    r
}

/// The bound that opens a scope
fn scope_start_string(k: ScopeType) -> (r: String)
    ensures
        r@ == scope_start_text(k),
{
    match k {
        ScopeType::Optional => {
            proof {
                reveal_strlit("(");
            }
            String::from_str("(")
        },
        ScopeType::Selection => {
            proof {
                reveal_strlit("{");
            }
            String::from_str("{")
        },
    }
}

/// The bound that closes a scope
fn scope_end_string(k: ScopeType) -> (r: String)
    ensures
        r@ == scope_end_text(k),
{
    match k {
        ScopeType::Optional => {
            proof {
                reveal_strlit(")");
            }
            String::from_str(")")
        },
        ScopeType::Selection => {
            proof {
                reveal_strlit("}");
            }
            String::from_str("}")
        },
    }
}

impl<'s> IrToken<'s> {
    /// The token as it is written
    pub fn to_string(&self) -> (r: String)
        ensures
            r@ == ir_token_text(self@),
    {
        match self {
            IrToken::Phone(p) => String::from_str(p.as_str()),
            IrToken::Label(name) => label_string(name),
            IrToken::Break(b) => b.to_string(),
            IrToken::Any => {
                proof {
                    reveal_strlit("*");
                }
                String::from_str("*")
            },
            IrToken::ArgSep => {
                proof {
                    reveal_strlit(",");
                }
                String::from_str(",")
            },
            IrToken::Gap => {
                proof {
                    reveal_strlit("..");
                }
                String::from_str("..")
            },
            IrToken::CondType(c) => c.to_string(),
            IrToken::ScopeStart(k) => scope_start_string(*k),
            IrToken::ScopeEnd(k) => scope_end_string(*k),
        }
    }
}

impl<'s> Phone<'s> {
    /// The phone as it is written: its symbol, or a space for a boundary
    pub fn to_string(&self) -> (r: String)
        ensures
            r@ == spec_phone_str(self@),
    {
        String::from_str(self.as_str())
    }
}

// ---------------------------------------------------------------------------
// The written form of rules

/// A scope label as it is written: a named label after `$`, nothing for an inferred one
pub open spec fn scope_id_text(id: SpecScopeId) -> Seq<char> {
    match id {
        SpecScopeId::Name(name) => label_text(name),
        SpecScopeId::IOUnlabeled { .. } => Seq::empty(),
    }
}

/// An optional scope label as it is written
pub open spec fn opt_id_text(id: Option<SpecScopeId>) -> Seq<char> {
    match id {
        Some(i) => scope_id_text(i),
        None => Seq::empty(),
    }
}

/// What a label stands for, as it is written
pub open spec fn label_type_text(l: LabelType) -> Seq<char> {
    match l {
        LabelType::Scope(k) => scope_type_text(k),
        LabelType::Any => seq![ANY_CHAR],
    }
}

/// A rule token as it is written: a phone is its symbol, a wildcard `*` and a gap `..`,
/// each after its label; an optional scope is its content between `(` and `)`, a selection
/// its options between `{` and `}`, each after its label and with spaces inside the bounds
pub open spec fn token_text(t: SpecRuleToken) -> Seq<char>
    decreases t,
{
    match t {
        SpecRuleToken::Phone(p) => spec_phone_str(p),
        SpecRuleToken::Any { id } => opt_id_text(id) + seq![ANY_CHAR],
        SpecRuleToken::Gap { id: None } => seq![DOT_CHAR, DOT_CHAR],
        SpecRuleToken::Gap { id: Some(name) } => label_text(name) + seq![' ', DOT_CHAR, DOT_CHAR],
        SpecRuleToken::OptionalScope { id, content } => opt_id_text(id) + seq![OPTIONAL_START_CHAR, ' ']
            + tokens_text(content) + seq![' ', OPTIONAL_END_CHAR],
        SpecRuleToken::SelectionScope { id, options } => opt_id_text(id) + seq![SELECTION_START_CHAR, ' ']
            + options_text(options) + seq![' ', SELECTION_END_CHAR],
    }
}

/// Rule tokens as they are written, separated by spaces
pub open spec fn tokens_text(ts: Seq<SpecRuleToken>) -> Seq<char>
    decreases ts,
{
    if ts.len() == 0 {
        Seq::empty()
    } else if ts.len() == 1 {
        token_text(ts[0])
    } else {
        tokens_text(ts.subrange(0, ts.len() - 1)) + seq![' '] + token_text(ts[ts.len() - 1])
    }
}

/// The options of a selection as they are written, separated by a comma and a space
pub open spec fn options_text(os: Seq<Seq<SpecRuleToken>>) -> Seq<char>
    decreases os,
{
    if os.len() == 0 {
        Seq::empty()
    } else if os.len() == 1 {
        tokens_text(os[0])
    } else {
        options_text(os.subrange(0, os.len() - 1)) + seq![ARG_SEP_CHAR, ' '] + tokens_text(os[os.len() - 1])
    }
}

/// A condition as it is written: the tokens before the focus, the focus and the tokens
/// after it, separated by spaces (a joined sub-condition is not written)
pub open spec fn cond_text(c: SpecCond) -> Seq<char> {
    tokens_text(c.before) + seq![' '] + cond_type_text(c.kind) + seq![' '] + tokens_text(c.after)
}

/// Conditions as they are written, each after a space, the break `b` and a space
pub open spec fn conds_text(cs: Seq<SpecCond>, b: Break) -> Seq<char>
    decreases cs.len(),
{
    if cs.len() == 0 {
        Seq::empty()
    } else {
        conds_text(cs.drop_last(), b) + seq![' '] + break_text(b) + seq![' '] + cond_text(cs.last())
    }
}

/// A rule as it is written: its input, shift and output separated by spaces,
/// then its conditions and its anti-conditions
pub open spec fn rule_text(r: SpecRule) -> Seq<char> {
    tokens_text(r.input) + seq![' '] + shift_text(r.kind) + seq![' '] + tokens_text(r.output)
        + conds_text(r.conds, Break::Cond) + conds_text(r.anti_conds, Break::AntiCond)
}

/// Appends a text
fn append_string(r: &mut String, s: String)
    ensures
        final(r)@ == old(r)@ + s@,
{
    r.append(s.as_str());
}

/// Appends one space
fn append_space(r: &mut String)
    ensures
        final(r)@ == old(r)@ + seq![' '],
{
    proof {
        reveal_strlit(" ");
    }
    r.append(" ");
}

impl<'s> ScopeId<'s> {
    /// The label as it is written
    pub fn to_string(&self) -> (r: String)
        ensures
            r@ == scope_id_text(self@),
    {
        match self {
            ScopeId::Name(name) => label_string(name),
            ScopeId::IOUnlabeled { .. } => String::new(),
        }
    }
}

/// An optional label as it is written
fn opt_id_string(id: &Option<ScopeId>) -> (r: String)
    ensures
        r@ == opt_id_text(crate::rules::opt_id_view(*id)),
{
    match id {
        Some(i) => i.to_string(),
        None => String::new(),
    }
}

impl LabelType {
    /// What the label stands for, as it is written
    pub fn to_string(&self) -> (r: String)
        ensures
            r@ == label_type_text(*self),
    {
        match self {
            LabelType::Scope(k) => k.to_string(),
            LabelType::Any => {
                proof {
                    reveal_strlit("*");
                }
                String::from_str("*")
            },
        }
    }
}

/// A rule token as it is written
fn token_string(t: &RuleToken) -> (r: String)
    ensures
        r@ == token_text(token_view(*t)),
    decreases tok_size(token_view(*t)), 0nat,
{
    match t {
        RuleToken::Phone(p) => p.to_string(),
        RuleToken::Any { id } => {
            let mut r = opt_id_string(id);
            proof {
                reveal_strlit("*");
            }
            r.append("*");
            r
        },
        RuleToken::Gap { id: None } => {
            proof {
                reveal_strlit("..");
            }
            String::from_str("..")
        },
        RuleToken::Gap { id: Some(name) } => {
            let mut r = label_string(name);
            proof {
                reveal_strlit(" ..");
            }
            r.append(" ..");
            r
        },
        RuleToken::OptionalScope { id, content } => {
            let mut r = opt_id_string(id);
            proof {
                reveal_strlit("( ");
                reveal_strlit(" )");
            }
            r.append("( ");
            let inner = tokens_string(content.as_slice());
            append_string(&mut r, inner);
            r.append(" )");
            r
        },
        RuleToken::SelectionScope { id, options } => {
            let mut r = opt_id_string(id);
            proof {
                reveal_strlit("{ ");
                reveal_strlit(" }");
            }
            r.append("{ ");
            let inner = options_string(options.as_slice());
            append_string(&mut r, inner);
            r.append(" }");
            r
        },
    }
}

/// Rule tokens as they are written, separated by spaces
fn tokens_string(ts: &[RuleToken]) -> (r: String)
    ensures
        r@ == tokens_text(tokens_view(ts@)),
    decreases toks_size(tokens_view(ts@)), 1nat,
{
    let ghost tv = tokens_view(ts@);
    proof {
        lemma_tokens_view_len(ts@);
    }
    let mut r = String::new();
    let mut k: usize = 0;
    while k < ts.len()
        invariant
            tv == tokens_view(ts@),
            tv.len() == ts@.len(),
            k <= ts@.len(),
            r@ == tokens_text(tv.subrange(0, k as int)),
        decreases ts@.len() - k,
    {
        proof {
            lemma_tokens_view_index(ts@, k as int);
            lemma_toks_size_elem(tv, k as int);
        }
        if k > 0 {
            append_space(&mut r);
        }
        let piece = token_string(&ts[k]);
        append_string(&mut r, piece);
        proof {
            let pre = tv.subrange(0, k + 1);
            assert(pre.subrange(0, k as int) =~= tv.subrange(0, k as int));
            assert(pre[k as int] == tv[k as int]);
        }
        k += 1;
    }
    assert(tv.subrange(0, k as int) =~= tv);
    r
}

/// The options of a selection as they are written, separated by a comma and a space
fn options_string(os: &[Vec<RuleToken>]) -> (r: String)
    ensures
        r@ == options_text(options_view(os@)),
    decreases opts_size(options_view(os@)), 2nat,
{
    let ghost ov = options_view(os@);
    proof {
        lemma_options_view_len(os@);
    }
    let mut r = String::new();
    let mut k: usize = 0;
    while k < os.len()
        invariant
            ov == options_view(os@),
            ov.len() == os@.len(),
            k <= os@.len(),
            r@ == options_text(ov.subrange(0, k as int)),
        decreases os@.len() - k,
    {
        proof {
            lemma_options_view_index(os@, k as int);
            lemma_opts_size_elem(ov, k as int);
        }
        if k > 0 {
            proof {
                reveal_strlit(", ");
            }
            r.append(", ");
        }
        let piece = tokens_string(os[k].as_slice());
        append_string(&mut r, piece);
        proof {
            let pre = ov.subrange(0, k + 1);
            assert(pre.subrange(0, k as int) =~= ov.subrange(0, k as int));
            assert(pre[k as int] == ov[k as int]);
        }
        k += 1;
    }
    assert(ov.subrange(0, k as int) =~= ov);
    r
}

impl<'s> RuleToken<'s> {
    /// The token as it is written
    pub fn to_string(&self) -> (r: String)
        ensures
            r@ == token_text(token_view(*self)),
    {
        token_string(self)
    }
}

impl<'s> Cond<'s> {
    /// The condition as it is written
    pub fn to_string(&self) -> (r: String)
        ensures
            r@ == cond_text(cond_view(*self)),
    {
        let mut r = tokens_string(self.left());
        append_space(&mut r);
        append_string(&mut r, self.kind().to_string());
        append_space(&mut r);
        append_string(&mut r, tokens_string(self.right()));
        r
    }
}

/// Conditions as they are written, each after a space, the break `b` and a space
fn conds_string(cs: &[Cond], b: Break) -> (r: String)
    ensures
        r@ == conds_text(crate::rules::conds_view(cs@), b),
{
    let ghost cv = crate::rules::conds_view(cs@);
    let mut r = String::new();
    let mut k: usize = 0;
    while k < cs.len()
        invariant
            cv == crate::rules::conds_view(cs@),
            cv.len() == cs@.len(),
            k <= cs@.len(),
            r@ == conds_text(cv.subrange(0, k as int), b),
        decreases cs@.len() - k,
    {
        append_space(&mut r);
        append_string(&mut r, b.to_string());
        append_space(&mut r);
        append_string(&mut r, cs[k].to_string());
        proof {
            let pre = cv.subrange(0, k + 1);
            assert(pre.drop_last() =~= cv.subrange(0, k as int));
            assert(pre.last() == cv[k as int]);
        }
        k += 1;
    }
    assert(cv.subrange(0, k as int) =~= cv);
    r
}

impl<'s> SoundChangeRule<'s> {
    /// The rule as it is written
    pub fn to_string(&self) -> (r: String)
        ensures
            r@ == rule_text(rule_view(*self)),
    {
        let mut r = tokens_string(self.input.as_slice());
        append_space(&mut r);
        append_string(&mut r, self.kind.to_string());
        append_space(&mut r);
        append_string(&mut r, tokens_string(self.output.as_slice()));
        append_string(&mut r, conds_string(self.conds.as_slice(), Break::Cond));
        append_string(&mut r, conds_string(self.anti_conds.as_slice(), Break::AntiCond));
        r
    }
}

// ---------------------------------------------------------------------------
// Error messages

/// The message of a structure error of ir tokens
pub open spec fn ir_structure_error_text<'s>(e: IrStructureError<'s>) -> Seq<char> {
    match e {
        IrStructureError::UnopenedScope(k) => "Found scope end '"@ + scope_end_text(k)
            + "' with no corresponding start '"@ + scope_start_text(k) + "'"@,
        IrStructureError::UnclosedScope(k) => "Found scope start '"@ + scope_start_text(k)
            + "' with no corresponding end '"@ + scope_end_text(k) + "'"@,
        IrStructureError::MismatchedScopeBounds(start, end) => "Found scope start '"@ + scope_start_text(start)
            + "' closed with mismatched scope end '"@ + scope_end_text(end) + "'"@,
        IrStructureError::MisplacedArgSep => "Found a ',' out side of a selection scope ('{...}')"@,
        IrStructureError::DisallowedTokenInScope(t) => "A '"@ + ir_token_text(t@) + "' token may not occur in a scope"@,
        IrStructureError::SelectionDoesNotProceedScope(name) => "Scope label '"@ + label_text(name@)
            + "' does not proceed a scope"@,
        IrStructureError::NoShift => "Found rule with no shift token, consider commenting it out with '##'"@,
        IrStructureError::ShiftAfterShift(b) => "Found shift token '"@ + break_text(b) + "' after another shift token"@,
        IrStructureError::BreakBeforeShift(b) => "Found token '"@ + break_text(b) + "' in the input of a sound change"@,
        IrStructureError::AntiCondBeforeCond => "Found anti-conditon (denoted '//') before a condition (denoted '/')"@,
        IrStructureError::NoInputInCond =>
            "Found condition or anti-condition without the input pattern ('_') or equality operator ('=')"@,
        IrStructureError::ManyInputsInCond =>
            "Found condition or anti-condition with multiple input patterns ('_') or equality operators ('=')"@,
        IrStructureError::FocusOutOfCond(c) => "Found condition focus ('"@ + cond_type_text(c)
            + "') outside of a condition or anti-condition"@,
        IrStructureError::GapOutOfCond => "Found gap pattern ('..') outside of a condition or anti-condition"@,
        IrStructureError::AndOutOfCond => "Found conditional and ('&') outside of a condition or anti-condition"@,
    }
}

/// The message of an error in building a rule
pub open spec fn rule_structure_error_text<'s>(e: RuleStructureError<'s>) -> Seq<char> {
    match e {
        RuleStructureError::LabelNotFollowedByScope(name) => "Label '"@ + label_text(name@)
            + "' is not followed by a scope"@,
        RuleStructureError::NoShift => "Rule does not contains a shift token"@,
        RuleStructureError::UnopendScope(k) => "Found unopened '"@ + scope_end_text(k) + "'"@,
        RuleStructureError::UnclosedScope(k) => "Found unclosed '"@ + scope_start_text(k) + "'"@,
        RuleStructureError::MismatchedScopeBounds(start, end) => "Found mismatched scope bounds '"@
            + scope_start_text(start) + "'...'"@ + scope_end_text(end) + "'"@,
        RuleStructureError::UnexpectedToken(t) => "Found unexpected token '"@ + ir_token_text(t@) + "'"@,
        RuleStructureError::NoConditionFocus => "Found condition without an input patern ('_') or equality ('=')"@,
        RuleStructureError::AndDoesNotFollowCond(t) => "Found '"@ + and_type_text(t) + "' outside of a condition"@,
        RuleStructureError::SecondShift(s) => "Found a second shift token '"@ + shift_text(s) + "' after the first"@,
        RuleStructureError::BreakWithoutShift(b) => "Found '"@ + break_text(b) + "' without a proceeding shift token"@,
    }
}

/// Three pieces of text one after the other
fn join3(a: &str, b: String, c: &str) -> (r: String)
    ensures
        r@ == a@ + b@ + c@,
{
    let mut r = String::from_str(a);
    r.append(b.as_str());
    r.append(c);
    r
}

/// Five pieces of text one after the other
fn join5(a: &str, b: String, c: &str, d: String, e: &str) -> (r: String)
    ensures
        r@ == a@ + b@ + c@ + d@ + e@,
{
    let mut r = join3(a, b, c);
    r.append(d.as_str());
    r.append(e);
    r
}

impl<'s> IrStructureError<'s> {
    /// The message of the error
    pub fn to_string(&self) -> (r: String)
        ensures
            r@ == ir_structure_error_text(*self),
    {
        match self {
            IrStructureError::UnopenedScope(k) => join5(
                "Found scope end '", scope_end_string(*k), "' with no corresponding start '", scope_start_string(*k), "'"),
            IrStructureError::UnclosedScope(k) => join5(
                "Found scope start '", scope_start_string(*k), "' with no corresponding end '", scope_end_string(*k), "'"),
            IrStructureError::MismatchedScopeBounds(start, end) => join5(
                "Found scope start '", scope_start_string(*start), "' closed with mismatched scope end '",
                scope_end_string(*end), "'"),
            IrStructureError::MisplacedArgSep => String::from_str("Found a ',' out side of a selection scope ('{...}')"),
            IrStructureError::DisallowedTokenInScope(t) => join3("A '", t.to_string(), "' token may not occur in a scope"),
            IrStructureError::SelectionDoesNotProceedScope(name) => join3(
                "Scope label '", label_string(name), "' does not proceed a scope"),
            IrStructureError::NoShift => String::from_str("Found rule with no shift token, consider commenting it out with '##'"),
            IrStructureError::ShiftAfterShift(b) => join3("Found shift token '", b.to_string(), "' after another shift token"),
            IrStructureError::BreakBeforeShift(b) => join3("Found token '", b.to_string(), "' in the input of a sound change"),
            IrStructureError::AntiCondBeforeCond => String::from_str(
                "Found anti-conditon (denoted '//') before a condition (denoted '/')"),
            IrStructureError::NoInputInCond => String::from_str(
                "Found condition or anti-condition without the input pattern ('_') or equality operator ('=')"),
            IrStructureError::ManyInputsInCond => String::from_str(
                "Found condition or anti-condition with multiple input patterns ('_') or equality operators ('=')"),
            IrStructureError::FocusOutOfCond(c) => join3(
                "Found condition focus ('", c.to_string(), "') outside of a condition or anti-condition"),
            IrStructureError::GapOutOfCond => String::from_str(
                "Found gap pattern ('..') outside of a condition or anti-condition"),
            IrStructureError::AndOutOfCond => String::from_str(
                "Found conditional and ('&') outside of a condition or anti-condition"),
        }
    }
}

impl<'s> RuleStructureError<'s> {
    /// The message of the error
    pub fn to_string(&self) -> (r: String)
        ensures
            r@ == rule_structure_error_text(*self),
    {
        match self {
            RuleStructureError::LabelNotFollowedByScope(name) => join3(
                "Label '", label_string(name), "' is not followed by a scope"),
            RuleStructureError::NoShift => String::from_str("Rule does not contains a shift token"),
            RuleStructureError::UnopendScope(k) => join3("Found unopened '", scope_end_string(*k), "'"),
            RuleStructureError::UnclosedScope(k) => join3("Found unclosed '", scope_start_string(*k), "'"),
            RuleStructureError::MismatchedScopeBounds(start, end) => join5(
                "Found mismatched scope bounds '", scope_start_string(*start), "'...'", scope_end_string(*end), "'"),
            RuleStructureError::UnexpectedToken(t) => join3("Found unexpected token '", t.to_string(), "'"),
            RuleStructureError::NoConditionFocus => String::from_str(
                "Found condition without an input patern ('_') or equality ('=')"),
            RuleStructureError::AndDoesNotFollowCond(t) => join3("Found '", t.to_string(), "' outside of a condition"),
            RuleStructureError::SecondShift(s) => join3("Found a second shift token '", s.to_string(), "' after the first"),
            RuleStructureError::BreakWithoutShift(b) => join3(
                "Found '", b.to_string(), "' without a proceeding shift token"),
        }
    }
}

}
