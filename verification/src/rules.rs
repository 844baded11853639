use vstd::prelude::*;
use crate::ir::{Break, IrLine, IrToken, RuntimeCmd};
use crate::token_checker::{regionize_ir, regions_view, spec_regionize};
use crate::phones::{Phone, SpecPhone};
use crate::tokens::{AndType, CondType, LabelType, ScopeId, ScopeType, Shift, SpecScopeId};
use crate::matcher::{lemma_opts_size_elem, lemma_toks_size_elem, opts_size, tok_size, toks_size};

verus! {

#[allow(inconsistent_fields)]
/// A token of a sound change rule
#[derive(Debug, PartialEq, Eq)]
pub enum RuleToken<'s> {
    /// A phone literal
    Phone(Phone<'s>),
    /// A scope that chooses between several phone lists
    SelectionScope { id: Option<ScopeId<'s>>, options: Vec<Vec<RuleToken<'s>>> },
    /// A scope that either does or doesn't insert a phone list
    OptionalScope { id: Option<ScopeId<'s>>, content: Vec<RuleToken<'s>> },
    /// Any non-boundary phone, can agree with others of the same label
    Any { id: Option<ScopeId<'s>> },
    /// A lazily evaluated gap of any non-negative length that does not contain a word boundary
    Gap { id: Option<&'s str> },
}

#[allow(inconsistent_fields)]
/// The mathematical value of a rule token
pub enum SpecRuleToken {
    Phone(SpecPhone),
    SelectionScope { id: Option<SpecScopeId>, options: Seq<Seq<SpecRuleToken>> },
    OptionalScope { id: Option<SpecScopeId>, content: Seq<SpecRuleToken> },
    Any { id: Option<SpecScopeId> },
    Gap { id: Option<Seq<char>> },
}

/// The mathematical value of an optional label
pub open spec fn opt_id_view(id: Option<ScopeId>) -> Option<SpecScopeId> {
    match id {
        Some(i) => Some(i@),
        None => None,
    }
}

#[allow(inconsistent_fields)]
/// The mathematical value of a rule token
pub open spec fn token_view(t: RuleToken) -> SpecRuleToken
    decreases t,
{
    match t {
        RuleToken::Phone(p) => SpecRuleToken::Phone(p@),
        RuleToken::SelectionScope { id, options } => SpecRuleToken::SelectionScope {
            id: opt_id_view(id),
            options: options_view(options@),
        },
        RuleToken::OptionalScope { id, content } => SpecRuleToken::OptionalScope {
            id: opt_id_view(id),
            content: tokens_view(content@),
        },
        RuleToken::Any { id } => SpecRuleToken::Any { id: opt_id_view(id) },
        RuleToken::Gap { id } => SpecRuleToken::Gap {
            id: match id {
                Some(name) => Some(name@),
                None => None,
            },
        },
    }
}

/// The mathematical values of a list of rule tokens
pub open spec fn tokens_view(s: Seq<RuleToken>) -> Seq<SpecRuleToken>
    decreases s,
{
    if s.len() == 0 {
        Seq::empty()
    } else {
        seq![token_view(s[0])] + tokens_view(s.subrange(1, s.len() as int))
    }
}

/// The mathematical values of the options of a selection scope
pub open spec fn options_view(s: Seq<Vec<RuleToken>>) -> Seq<Seq<SpecRuleToken>>
    decreases s,
{
    if s.len() == 0 {
        Seq::empty()
    } else {
        seq![tokens_view(s[0]@)] + options_view(s.subrange(1, s.len() as int))
    }
}


pub proof fn lemma_tokens_view_len(s: Seq<RuleToken>)
    ensures
        tokens_view(s).len() == s.len(),
    decreases s.len(),
{
    if s.len() > 0 {
        lemma_tokens_view_len(s.subrange(1, s.len() as int));
    }
}

pub proof fn lemma_tokens_view_index(s: Seq<RuleToken>, i: int)
    requires
        0 <= i < s.len(),
    ensures
        tokens_view(s)[i] == token_view(s[i]),
    decreases s.len(),
{
    lemma_tokens_view_len(s);
    if i > 0 {
        lemma_tokens_view_index(s.subrange(1, s.len() as int), i - 1);
        lemma_tokens_view_len(s.subrange(1, s.len() as int));
    }
}

/// The view of a list with one more token is the view of the list with one more token
pub proof fn lemma_tokens_view_push(s: Seq<RuleToken>, t: RuleToken)
    ensures
        tokens_view(s.push(t)) == tokens_view(s).push(token_view(t)),
{
    lemma_tokens_view_len(s.push(t));
    lemma_tokens_view_len(s);
    assert forall|i: int| 0 <= i < s.len() + 1 implies #[trigger] tokens_view(s.push(t))[i] == tokens_view(s).push(token_view(t))[i] by {
        lemma_tokens_view_index(s.push(t), i);
        if i < s.len() {
            lemma_tokens_view_index(s, i);
        }
    }
    assert(tokens_view(s.push(t)) =~= tokens_view(s).push(token_view(t)));
}

pub proof fn lemma_options_view_len(s: Seq<Vec<RuleToken>>)
    ensures
        options_view(s).len() == s.len(),
    decreases s.len(),
{
    if s.len() > 0 {
        lemma_options_view_len(s.subrange(1, s.len() as int));
    }
}

pub proof fn lemma_options_view_index(s: Seq<Vec<RuleToken>>, i: int)
    requires
        0 <= i < s.len(),
    ensures
        options_view(s)[i] == tokens_view(s[i]@),
    decreases s.len(),
{
    lemma_options_view_len(s);
    if i > 0 {
        lemma_options_view_index(s.subrange(1, s.len() as int), i - 1);
        lemma_options_view_len(s.subrange(1, s.len() as int));
    }
}

proof fn lemma_options_view_push(s: Seq<Vec<RuleToken>>, t: Vec<RuleToken>)
    ensures
        options_view(s.push(t)) == options_view(s).push(tokens_view(t@)),
{
    lemma_options_view_len(s.push(t));
    lemma_options_view_len(s);
    assert forall|i: int| 0 <= i < s.len() + 1 implies #[trigger] options_view(s.push(t))[i] == options_view(s).push(tokens_view(t@))[i] by {
        lemma_options_view_index(s.push(t), i);
        if i < s.len() {
            lemma_options_view_index(s, i);
        }
    }
    assert(options_view(s.push(t)) =~= options_view(s).push(tokens_view(t@)));
}

/// A copy of an optional label
fn clone_opt_id<'s>(id: &Option<ScopeId<'s>>) -> (r: Option<ScopeId<'s>>)
    ensures
        opt_id_view(r) == opt_id_view(*id),
{
    match id {
        Some(i) => Some(i.clone()),
        None => None,
    }
}

/// A copy of a rule token
fn clone_token<'s>(t: &RuleToken<'s>) -> (r: RuleToken<'s>)
    ensures
        token_view(r) == token_view(*t),
    decreases tok_size(token_view(*t)), 0nat,
{
    match t {
        RuleToken::Phone(p) => RuleToken::Phone(*p),
        RuleToken::SelectionScope { id, options } => RuleToken::SelectionScope {
            id: clone_opt_id(id),
            options: clone_options(options.as_slice()),
        },
        RuleToken::OptionalScope { id, content } => RuleToken::OptionalScope {
            id: clone_opt_id(id),
            content: clone_tokens(content.as_slice()),
        },
        RuleToken::Any { id } => RuleToken::Any { id: clone_opt_id(id) },
        RuleToken::Gap { id } => RuleToken::Gap { id: *id },
    }
}

/// A copy of a list of rule tokens
fn clone_tokens<'s>(ts: &[RuleToken<'s>]) -> (r: Vec<RuleToken<'s>>)
    ensures
        tokens_view(r@) == tokens_view(ts@),
    decreases toks_size(tokens_view(ts@)), 1nat,
{
    let ghost tv = tokens_view(ts@);
    proof {
        lemma_tokens_view_len(ts@);
    }
    let mut out: Vec<RuleToken<'s>> = Vec::new();
    let mut k: usize = 0;
    assert(ts@.subrange(0, 0) =~= Seq::<RuleToken<'s>>::empty());
    assert(out@ =~= Seq::<RuleToken<'s>>::empty());
    while k < ts.len()
        invariant
            tv == tokens_view(ts@),
            tv.len() == ts@.len(),
            k <= ts@.len(),
            tokens_view(out@) == tokens_view(ts@.subrange(0, k as int)),
        decreases ts@.len() - k,
    {
        proof {
            lemma_tokens_view_index(ts@, k as int);
            lemma_toks_size_elem(tv, k as int);
        }
        let t = clone_token(&ts[k]);
        proof {
            lemma_tokens_view_push(out@, t);
            lemma_tokens_view_push(ts@.subrange(0, k as int), ts@[k as int]);
            assert(ts@.subrange(0, k + 1) =~= ts@.subrange(0, k as int).push(ts@[k as int]));
        }
        out.push(t);
        k += 1;
    }
    assert(ts@.subrange(0, k as int) =~= ts@);
    out
}

/// A copy of the options of a selection scope
fn clone_options<'s>(os: &[Vec<RuleToken<'s>>]) -> (r: Vec<Vec<RuleToken<'s>>>)
    ensures
        options_view(r@) == options_view(os@),
    decreases opts_size(options_view(os@)), 2nat,
{
    let ghost ov = options_view(os@);
    proof {
        lemma_options_view_len(os@);
    }
    let mut out: Vec<Vec<RuleToken<'s>>> = Vec::new();
    let mut k: usize = 0;
    assert(os@.subrange(0, 0) =~= Seq::<Vec<RuleToken<'s>>>::empty());
    assert(out@ =~= Seq::<Vec<RuleToken<'s>>>::empty());
    while k < os.len()
        invariant
            ov == options_view(os@),
            ov.len() == os@.len(),
            k <= os@.len(),
            options_view(out@) == options_view(os@.subrange(0, k as int)),
        decreases os@.len() - k,
    {
        proof {
            lemma_options_view_index(os@, k as int);
            lemma_opts_size_elem(ov, k as int);
        }
        let o = clone_tokens(os[k].as_slice());
        proof {
            lemma_options_view_push(out@, o);
            lemma_options_view_push(os@.subrange(0, k as int), os@[k as int]);
            assert(os@.subrange(0, k + 1) =~= os@.subrange(0, k as int).push(os@[k as int]));
        }
        out.push(o);
        k += 1;
    }
    assert(os@.subrange(0, k as int) =~= os@);
    out
}

impl<'s> Clone for RuleToken<'s> {
    /// A copy of the token
    fn clone(&self) -> (r: Self)
        ensures
            token_view(r) == token_view(*self),
    {
        clone_token(self)
    }
}

/// An error that occurs when converting ir tokens to rule tokens
#[derive(Debug, PartialEq, Eq)]
pub enum RuleStructureError<'s> {
    LabelNotFollowedByScope(&'s str),
    NoShift,
    UnclosedScope(ScopeType),
    UnopendScope(ScopeType),
    MismatchedScopeBounds(ScopeType, ScopeType),
    UnexpectedToken(IrToken<'s>),
    NoConditionFocus,
    AndDoesNotFollowCond(AndType),
    SecondShift(Shift),
    BreakWithoutShift(Break),
}

// ---------------------------------------------------------------------------
// Conversion of ir tokens to rule tokens

/// Counters for the default labels of unlabeled optional scopes, selection scopes and anys
/// (absent in conditions, whose scopes get no default label)
pub type SpecIds = Option<(nat, nat, nat)>;

/// The mathematical value of the label counters
pub open spec fn ids_view(ids: Option<(usize, usize, usize)>) -> SpecIds {
    match ids {
        Some((o, s, a)) => Some((o as nat, s as nat, a as nat)),
        None => None,
    }
}

/// The default label of the next unlabeled scope or any of type `lt`
pub open spec fn spec_default_id(ids: SpecIds, parent: Option<SpecScopeId>, lt: LabelType) -> Option<SpecScopeId> {
    match ids {
        Some((o, s, a)) => Some(SpecScopeId::IOUnlabeled {
            id_num: match lt {
                LabelType::Scope(ScopeType::Optional) => o,
                LabelType::Scope(ScopeType::Selection) => s,
                LabelType::Any => a,
            },
            label_type: lt,
            parent: match parent {
                Some(p) => Some(Box::new(p)),
                None => None,
            },
        }),
        None => None,
    }
}

/// The label counters after a default label of type `lt` is given out
pub open spec fn spec_bump(ids: SpecIds, lt: LabelType) -> SpecIds {
    match ids {
        Some((o, s, a)) => Some(match lt {
            LabelType::Scope(ScopeType::Optional) => (o + 1, s, a),
            LabelType::Scope(ScopeType::Selection) => (o, s + 1, a),
            LabelType::Any => (o, s, a + 1),
        }),
        None => None,
    }
}

/// Where a list of tokens is being read
#[derive(Debug, Clone, Copy, PartialEq, Eq)]
pub enum ParseMode {
    /// An input, output or side of a condition
    Top,
    /// The content of an optional scope
    Optional,
    /// An option of a selection scope
    SelectionOption,
}

/// How the reading of a list of tokens stopped
#[derive(Debug, Clone, Copy, PartialEq, Eq)]
pub enum ParseStop {
    /// The tokens ran out
    EndOfInput,
    /// The enclosing scope was closed
    Closed,
    /// An argument separator ended a selection option
    Separator,
}

/// The result of reading a list of tokens: the rule tokens, the position after
/// them, the label counters and how the reading stopped
pub type SpecParse<'s> = Result<(Seq<SpecRuleToken>, nat, SpecIds, ParseStop), RuleStructureError<'s>>;

/// Reads rule tokens from `ir` at `pos` until the list ends as `mode` says
pub open spec fn spec_parse<'s>(ir: Seq<IrToken<'s>>, pos: nat, ids: SpecIds, parent: Option<SpecScopeId>, mode: ParseMode) -> SpecParse<'s>
    decreases ir.len() - pos, 1nat,
{
    if pos >= ir.len() {
        match mode {
            ParseMode::SelectionOption => Err(RuleStructureError::UnclosedScope(ScopeType::Selection)),
            _ => Ok((Seq::empty(), pos, ids, ParseStop::EndOfInput)),
        }
    } else {
        match ir[pos as int] {
            IrToken::ScopeEnd(kind) => match mode {
                ParseMode::Top => Err(RuleStructureError::UnopendScope(kind)),
                ParseMode::Optional => if kind == ScopeType::Optional {
                    Ok((Seq::empty(), pos + 1, ids, ParseStop::Closed))
                } else {
                    Err(RuleStructureError::MismatchedScopeBounds(ScopeType::Optional, kind))
                },
                ParseMode::SelectionOption => if kind == ScopeType::Selection {
                    Ok((Seq::empty(), pos + 1, ids, ParseStop::Closed))
                } else {
                    Err(RuleStructureError::MismatchedScopeBounds(ScopeType::Selection, kind))
                },
            },
            IrToken::ArgSep => match mode {
                ParseMode::SelectionOption => Ok((Seq::empty(), pos + 1, ids, ParseStop::Separator)),
                _ => Err(RuleStructureError::UnexpectedToken(IrToken::ArgSep)),
            },
            _ => match spec_parse_item(ir, pos, ids, parent) {
                Err(e) => Err(e),
                Ok((item, pos2, ids2)) => if pos < pos2 <= ir.len() {
                    match spec_parse(ir, pos2, ids2, parent, mode) {
                        Err(e) => Err(e),
                        Ok((rest, pos3, ids3, stop)) => Ok((seq![item] + rest, pos3, ids3, stop)),
                    }
                } else {
                    Err(RuleStructureError::UnexpectedToken(ir[pos as int]))
                },
            },
        }
    }
}

/// Reads one rule token (with everything it contains) from `ir` at `pos`
pub open spec fn spec_parse_item<'s>(ir: Seq<IrToken<'s>>, pos: nat, ids: SpecIds, parent: Option<SpecScopeId>) -> Result<(SpecRuleToken, nat, SpecIds), RuleStructureError<'s>>
    decreases ir.len() - pos, 0nat,
{
    if pos >= ir.len() {
        Err(RuleStructureError::NoShift)
    } else {
        match ir[pos as int] {
            IrToken::Phone(p) => Ok((SpecRuleToken::Phone(p@), pos + 1, ids)),
            IrToken::Any => Ok((
                SpecRuleToken::Any { id: spec_default_id(ids, parent, LabelType::Any) },
                pos + 1,
                spec_bump(ids, LabelType::Any),
            )),
            IrToken::Gap => Ok((SpecRuleToken::Gap { id: None }, pos + 1, ids)),
            IrToken::ScopeStart(ScopeType::Optional) => {
                let id = spec_default_id(ids, parent, LabelType::Scope(ScopeType::Optional));
                match spec_parse(ir, pos + 1, spec_bump(ids, LabelType::Scope(ScopeType::Optional)), id, ParseMode::Optional) {
                    Err(e) => Err(e),
                    Ok((content, pos2, ids2, _)) => Ok((SpecRuleToken::OptionalScope { id, content }, pos2, ids2)),
                }
            },
            IrToken::ScopeStart(ScopeType::Selection) => {
                let id = spec_default_id(ids, parent, LabelType::Scope(ScopeType::Selection));
                match spec_parse_options(ir, pos + 1, spec_bump(ids, LabelType::Scope(ScopeType::Selection)), id) {
                    Err(e) => Err(e),
                    Ok((options, pos2, ids2)) => Ok((SpecRuleToken::SelectionScope { id, options }, pos2, ids2)),
                }
            },
            IrToken::Label(name) => {
                let id = Some(SpecScopeId::Name(name@));
                if pos + 1 >= ir.len() {
                    Err(RuleStructureError::LabelNotFollowedByScope(name))
                } else {
                    match ir[pos + 1 as int] {
                        IrToken::ScopeStart(ScopeType::Optional) => match spec_parse(ir, pos + 2, ids, id, ParseMode::Optional) {
                            Err(e) => Err(e),
                            Ok((content, pos2, ids2, _)) => Ok((SpecRuleToken::OptionalScope { id, content }, pos2, ids2)),
                        },
                        IrToken::ScopeStart(ScopeType::Selection) => match spec_parse_options(ir, pos + 2, ids, id) {
                            Err(e) => Err(e),
                            Ok((options, pos2, ids2)) => Ok((SpecRuleToken::SelectionScope { id, options }, pos2, ids2)),
                        },
                        IrToken::Any => Ok((SpecRuleToken::Any { id }, pos + 2, ids)),
                        IrToken::Gap => Ok((SpecRuleToken::Gap { id: Some(name@) }, pos + 2, ids)),
                        _ => Err(RuleStructureError::LabelNotFollowedByScope(name)),
                    }
                }
            },
            t => Err(RuleStructureError::UnexpectedToken(t)),
        }
    }
}

/// Reads the options of a selection scope from `ir` at `pos`, up to the end of the scope
pub open spec fn spec_parse_options<'s>(ir: Seq<IrToken<'s>>, pos: nat, ids: SpecIds, id: Option<SpecScopeId>) -> Result<(Seq<Seq<SpecRuleToken>>, nat, SpecIds), RuleStructureError<'s>>
    decreases ir.len() - pos, 2nat,
{
    match spec_parse(ir, pos, ids, id, ParseMode::SelectionOption) {
        Err(e) => Err(e),
        Ok((option, pos2, ids2, stop)) => match stop {
            ParseStop::Separator => if pos < pos2 <= ir.len() {
                match spec_parse_options(ir, pos2, ids2, id) {
                    Err(e) => Err(e),
                    Ok((rest, pos3, ids3)) => Ok((seq![option] + rest, pos3, ids3)),
                }
            } else {
                Err(RuleStructureError::UnclosedScope(ScopeType::Selection))
            },
            _ => Ok((seq![option], pos2, ids2)),
        },
    }
}


/// The counters can give out `room` more labels of each type without overflowing
pub open spec fn ids_fit(ids: SpecIds, room: int) -> bool {
    match ids {
        Some((o, s, a)) => o + room <= usize::MAX && s + room <= usize::MAX && a + room <= usize::MAX,
        None => true,
    }
}

/// The counters went from `before` to `after` giving out at most `delta` labels of each type
pub open spec fn ids_grow(before: SpecIds, after: SpecIds, delta: int) -> bool {
    match (before, after) {
        (Some((o1, s1, a1)), Some((o2, s2, a2))) => o1 <= o2 <= o1 + delta && s1 <= s2 <= s1 + delta && a1 <= a2 <= a1 + delta,
        (None, None) => true,
        _ => false,
    }
}

/// The mathematical value of an optional reference to a label
pub open spec fn opt_ref_view(p: Option<&ScopeId>) -> Option<SpecScopeId> {
    match p {
        Some(x) => Some(x@),
        None => None,
    }
}

/// Adds `items` before the rule tokens of a successful reading
pub open spec fn prepend<'s>(items: Seq<SpecRuleToken>, r: SpecParse<'s>) -> SpecParse<'s> {
    match r {
        Ok((rest, p, i, st)) => Ok((items + rest, p, i, st)),
        Err(e) => Err(e),
    }
}

/// Adds `options` before the options of a successful reading of a selection
pub open spec fn prepend_options<'s>(
    options: Seq<Seq<SpecRuleToken>>,
    r: Result<(Seq<Seq<SpecRuleToken>>, nat, SpecIds), RuleStructureError<'s>>,
) -> Result<(Seq<Seq<SpecRuleToken>>, nat, SpecIds), RuleStructureError<'s>> {
    match r {
        Ok((rest, p, i)) => Ok((options + rest, p, i)),
        Err(e) => Err(e),
    }
}

/// Creates the default label of the next unlabeled scope or any of type `lt`
fn default_id<'s>(ids: &Option<(usize, usize, usize)>, parent: Option<&ScopeId<'s>>, lt: LabelType) -> (r: Option<ScopeId<'s>>)
    ensures
        opt_id_view(r) == spec_default_id(ids_view(*ids), opt_ref_view(parent), lt),
{
    match ids {
        Some((o, s, a)) => {
            let id_num = match lt {
                LabelType::Scope(ScopeType::Optional) => *o,
                LabelType::Scope(ScopeType::Selection) => *s,
                LabelType::Any => *a,
            };
            let parent = match parent {
                Some(p) => Some(Box::new(p.clone())),
                None => None,
            };
            Some(ScopeId::IOUnlabeled { id_num, label_type: lt, parent })
        },
        None => None,
    }
}

/// Counts a default label of type `lt` as given out
fn bump(ids: &mut Option<(usize, usize, usize)>, lt: LabelType)
    requires
        ids_fit(ids_view(*old(ids)), 1),
    ensures
        ids_view(*final(ids)) == spec_bump(ids_view(*old(ids)), lt),
{
    match ids {
        Some((o, s, a)) => {
            match lt {
                LabelType::Scope(ScopeType::Optional) => { *o = *o + 1; },
                LabelType::Scope(ScopeType::Selection) => { *s = *s + 1; },
                LabelType::Any => { *a = *a + 1; },
            }
        },
        None => {},
    }
}

/// Reads rule tokens from `ir` at `pos` until the list ends as `mode` says
fn parse_tokens<'s>(
    ir: &[IrToken<'s>],
    pos: usize,
    ids: &mut Option<(usize, usize, usize)>,
    parent: Option<&ScopeId<'s>>,
    mode: ParseMode,
) -> (r: Result<(Vec<RuleToken<'s>>, usize, ParseStop), RuleStructureError<'s>>)
    requires
        pos <= ir@.len(),
        ids_fit(ids_view(*old(ids)), ir@.len() - pos),
    ensures
        match r {
            Ok((v, p, st)) => {
                &&& spec_parse(ir@, pos as nat, ids_view(*old(ids)), opt_ref_view(parent), mode)
                    == Ok::<_, RuleStructureError<'s>>((tokens_view(v@), p as nat, ids_view(*final(ids)), st))
                &&& pos <= p <= ir@.len()
                &&& ids_grow(ids_view(*old(ids)), ids_view(*final(ids)), p - pos)
                &&& (st != ParseStop::EndOfInput ==> pos < p)
                &&& (mode == ParseMode::SelectionOption ==> st != ParseStop::EndOfInput)
            },
            Err(e) => spec_parse(ir@, pos as nat, ids_view(*old(ids)), opt_ref_view(parent), mode) == Err::<(Seq<SpecRuleToken>, nat, SpecIds, ParseStop), RuleStructureError<'s>>(e),
        },
    decreases ir@.len() - pos, 1nat,
{
    let ghost ids0 = ids_view(*ids);
    let ghost pv = opt_ref_view(parent);
    let mut items: Vec<RuleToken<'s>> = Vec::new();
    let mut cur = pos;
    proof {
        lemma_tokens_view_len(items@);
        assert(tokens_view(items@) =~= Seq::<SpecRuleToken>::empty());
        assert(prepend(tokens_view(items@), spec_parse(ir@, cur as nat, ids_view(*ids), pv, mode)) =~= spec_parse(ir@, pos as nat, ids0, pv, mode)) by {
            match spec_parse(ir@, cur as nat, ids_view(*ids), pv, mode) {
                Ok((rest, p, i, st)) => { assert(Seq::<SpecRuleToken>::empty() + rest =~= rest); },
                Err(e) => {},
            }
        }
    }
    loop
        invariant
            pos <= cur <= ir@.len(),
            ids0 == ids_view(*old(ids)),
            pv == opt_ref_view(parent),
            ids_fit(ids0, ir@.len() - pos),
            ids_grow(ids0, ids_view(*ids), cur - pos),
            spec_parse(ir@, pos as nat, ids0, pv, mode) == prepend(tokens_view(items@), spec_parse(ir@, cur as nat, ids_view(*ids), pv, mode)),
        decreases ir@.len() - cur,
    {
        if cur >= ir.len() {
            match mode {
                ParseMode::SelectionOption => {
                    return Err(RuleStructureError::UnclosedScope(ScopeType::Selection));
                },
                _ => {
                    proof {
                        assert(tokens_view(items@) + Seq::<SpecRuleToken>::empty() =~= tokens_view(items@));
                    }
                    return Ok((items, cur, ParseStop::EndOfInput));
                },
            }
        }
        let token = ir[cur];
        match token {
            IrToken::ScopeEnd(kind) => {
                proof {
                    assert(tokens_view(items@) + Seq::<SpecRuleToken>::empty() =~= tokens_view(items@));
                }
                match mode {
                    ParseMode::Top => {
                        return Err(RuleStructureError::UnopendScope(kind));
                    },
                    ParseMode::Optional => {
                        if matches!(kind, ScopeType::Optional) {
                            return Ok((items, cur + 1, ParseStop::Closed));
                        } else {
                            return Err(RuleStructureError::MismatchedScopeBounds(ScopeType::Optional, kind));
                        }
                    },
                    ParseMode::SelectionOption => {
                        if matches!(kind, ScopeType::Selection) {
                            return Ok((items, cur + 1, ParseStop::Closed));
                        } else {
                            return Err(RuleStructureError::MismatchedScopeBounds(ScopeType::Selection, kind));
                        }
                    },
                }
            },
            IrToken::ArgSep => {
                proof {
                    assert(tokens_view(items@) + Seq::<SpecRuleToken>::empty() =~= tokens_view(items@));
                }
                match mode {
                    ParseMode::SelectionOption => {
                        return Ok((items, cur + 1, ParseStop::Separator));
                    },
                    _ => {
                        return Err(RuleStructureError::UnexpectedToken(IrToken::ArgSep));
                    },
                }
            },
            _ => {
                let ghost ids_before = ids_view(*ids);
                let ghost items_before = tokens_view(items@);
                let (item, next) = parse_item(ir, cur, ids, parent)?;
                proof {
                    lemma_tokens_view_push(items@, item);
                    let rest = spec_parse(ir@, next as nat, ids_view(*ids), pv, mode);
                    match rest {
                        Ok((r, p, i, st)) => {
                            assert(items_before.push(token_view(item)) + r =~= items_before + (seq![token_view(item)] + r));
                        },
                        Err(e) => {},
                    }
                }
                items.push(item);
                cur = next;
            },
        }
    }
}

/// Reads one rule token (with everything it contains) from `ir` at `pos`
fn parse_item<'s>(
    ir: &[IrToken<'s>],
    pos: usize,
    ids: &mut Option<(usize, usize, usize)>,
    parent: Option<&ScopeId<'s>>,
) -> (r: Result<(RuleToken<'s>, usize), RuleStructureError<'s>>)
    requires
        pos < ir@.len(),
        ids_fit(ids_view(*old(ids)), ir@.len() - pos),
    ensures
        match r {
            Ok((t, p)) => {
                &&& spec_parse_item(ir@, pos as nat, ids_view(*old(ids)), opt_ref_view(parent))
                    == Ok::<_, RuleStructureError<'s>>((token_view(t), p as nat, ids_view(*final(ids))))
                &&& pos < p <= ir@.len()
                &&& ids_grow(ids_view(*old(ids)), ids_view(*final(ids)), p - pos)
            },
            Err(e) => spec_parse_item(ir@, pos as nat, ids_view(*old(ids)), opt_ref_view(parent)) == Err::<(SpecRuleToken, nat, SpecIds), RuleStructureError<'s>>(e),
        },
    decreases ir@.len() - pos, 0nat,
{
    match ir[pos] {
        IrToken::Phone(p) => Ok((RuleToken::Phone(p), pos + 1)),
        IrToken::Any => {
            let id = default_id(ids, parent, LabelType::Any);
            bump(ids, LabelType::Any);
            Ok((RuleToken::Any { id }, pos + 1))
        },
        IrToken::Gap => Ok((RuleToken::Gap { id: None }, pos + 1)),
        IrToken::ScopeStart(ScopeType::Optional) => {
            let id = default_id(ids, parent, LabelType::Scope(ScopeType::Optional));
            bump(ids, LabelType::Scope(ScopeType::Optional));
            let id_ref = match &id {
                Some(x) => Some(x),
                None => None,
            };
            let (content, next, _) = parse_tokens(ir, pos + 1, ids, id_ref, ParseMode::Optional)?;
            Ok((RuleToken::OptionalScope { id, content }, next))
        },
        IrToken::ScopeStart(ScopeType::Selection) => {
            let id = default_id(ids, parent, LabelType::Scope(ScopeType::Selection));
            bump(ids, LabelType::Scope(ScopeType::Selection));
            let id_ref = match &id {
                Some(x) => Some(x),
                None => None,
            };
            let (options, next) = parse_options(ir, pos + 1, ids, id_ref)?;
            Ok((RuleToken::SelectionScope { id, options }, next))
        },
        IrToken::Label(name) => {
            if pos + 1 >= ir.len() {
                return Err(RuleStructureError::LabelNotFollowedByScope(name));
            }
            let id = ScopeId::Name(name);
            match ir[pos + 1] {
                IrToken::ScopeStart(ScopeType::Optional) => {
                    let (content, next, _) = parse_tokens(ir, pos + 2, ids, Some(&id), ParseMode::Optional)?;
                    Ok((RuleToken::OptionalScope { id: Some(id), content }, next))
                },
                IrToken::ScopeStart(ScopeType::Selection) => {
                    let (options, next) = parse_options(ir, pos + 2, ids, Some(&id))?;
                    Ok((RuleToken::SelectionScope { id: Some(id), options }, next))
                },
                IrToken::Any => Ok((RuleToken::Any { id: Some(id) }, pos + 2)),
                IrToken::Gap => Ok((RuleToken::Gap { id: Some(name) }, pos + 2)),
                _ => Err(RuleStructureError::LabelNotFollowedByScope(name)),
            }
        },
        t => Err(RuleStructureError::UnexpectedToken(t)),
    }
}

/// Reads the options of a selection scope from `ir` at `pos`, up to the end of the scope
fn parse_options<'s>(
    ir: &[IrToken<'s>],
    pos: usize,
    ids: &mut Option<(usize, usize, usize)>,
    id: Option<&ScopeId<'s>>,
) -> (r: Result<(Vec<Vec<RuleToken<'s>>>, usize), RuleStructureError<'s>>)
    requires
        pos <= ir@.len(),
        ids_fit(ids_view(*old(ids)), ir@.len() - pos),
    ensures
        match r {
            Ok((v, p)) => {
                &&& spec_parse_options(ir@, pos as nat, ids_view(*old(ids)), opt_ref_view(id))
                    == Ok::<_, RuleStructureError<'s>>((options_view(v@), p as nat, ids_view(*final(ids))))
                &&& pos < p <= ir@.len()
                &&& ids_grow(ids_view(*old(ids)), ids_view(*final(ids)), p - pos)
            },
            Err(e) => spec_parse_options(ir@, pos as nat, ids_view(*old(ids)), opt_ref_view(id)) == Err::<(Seq<Seq<SpecRuleToken>>, nat, SpecIds), RuleStructureError<'s>>(e),
        },
    decreases ir@.len() - pos, 2nat,
{
    let ghost ids0 = ids_view(*ids);
    let ghost iv = opt_ref_view(id);
    let mut options: Vec<Vec<RuleToken<'s>>> = Vec::new();
    let mut cur = pos;
    proof {
        lemma_options_view_len(options@);
        assert(options_view(options@) =~= Seq::<Seq<SpecRuleToken>>::empty());
        assert(prepend_options(options_view(options@), spec_parse_options(ir@, cur as nat, ids_view(*ids), iv)) =~= spec_parse_options(ir@, pos as nat, ids0, iv)) by {
            match spec_parse_options(ir@, cur as nat, ids_view(*ids), iv) {
                Ok((rest, p, i)) => { assert(Seq::<Seq<SpecRuleToken>>::empty() + rest =~= rest); },
                Err(e) => {},
            }
        }
    }
    loop
        invariant
            pos <= cur <= ir@.len(),
            ids0 == ids_view(*old(ids)),
            iv == opt_ref_view(id),
            ids_fit(ids0, ir@.len() - pos),
            ids_grow(ids0, ids_view(*ids), cur - pos),
            spec_parse_options(ir@, pos as nat, ids0, iv) == prepend_options(options_view(options@), spec_parse_options(ir@, cur as nat, ids_view(*ids), iv)),
        decreases ir@.len() - cur,
    {
        let ghost ids_before = ids_view(*ids);
        let ghost before = options_view(options@);
        let (option, next, stop) = parse_tokens(ir, cur, ids, id, ParseMode::SelectionOption)?;
        proof {
            lemma_options_view_push(options@, option);
        }
        match stop {
            ParseStop::Separator => {
                if !(cur < next && next <= ir.len()) {
                    return Err(RuleStructureError::UnclosedScope(ScopeType::Selection));
                }
                proof {
                    match spec_parse_options(ir@, next as nat, ids_view(*ids), iv) {
                        Ok((r, p, i)) => {
                            assert(before.push(tokens_view(option@)) + r =~= before + (seq![tokens_view(option@)] + r));
                        },
                        Err(e) => {},
                    }
                }
                options.push(option);
                cur = next;
            },
            _ => {
                proof {
                    assert(before.push(tokens_view(option@)) =~= before + seq![tokens_view(option@)]);
                }
                options.push(option);
                return Ok((options, next));
            },
        }
    }
}


// ---------------------------------------------------------------------------
// Conditions

/// A pair of token lists compared, as the kind of the condition says,
/// either to the environment around the input or to each other,
/// with an optional sub-condition joined to it
#[derive(Debug, PartialEq, Eq)]
pub struct Cond<'s> {
    kind: CondType,
    before: Vec<RuleToken<'s>>,
    after: Vec<RuleToken<'s>>,
    and: Option<(AndType, Box<Cond<'s>>)>,
}

/// The mathematical value of a condition
pub struct SpecCond {
    pub kind: CondType,
    pub before: Seq<SpecRuleToken>,
    pub after: Seq<SpecRuleToken>,
    pub and: Option<(AndType, Box<SpecCond>)>,
}

/// The mathematical value of a condition
pub closed spec fn cond_view(c: Cond) -> SpecCond
    decreases c,
{
    SpecCond {
        kind: c.kind,
        before: tokens_view(c.before@),
        after: tokens_view(c.after@),
        and: match c.and {
            Some((t, inner)) => Some((t, Box::new(cond_view(*inner)))),
            None => None,
        },
    }
}

/// The mathematical values of a list of conditions
pub open spec fn conds_view(s: Seq<Cond>) -> Seq<SpecCond> {
    s.map_values(|c: Cond| cond_view(c))
}

/// The condition that always holds: nothing before and nothing after the input
pub open spec fn spec_default_cond() -> SpecCond {
    SpecCond { kind: CondType::Pattern, before: Seq::empty(), after: Seq::empty(), and: None }
}

/// A condition with `d` joined by `t` at the end of its chain of sub-conditions
pub open spec fn spec_add_and(c: SpecCond, t: AndType, d: SpecCond) -> SpecCond
    decreases c,
{
    match c.and {
        Some((t0, inner)) => SpecCond { and: Some((t0, Box::new(spec_add_and(*inner, t, d)))), ..c },
        None => SpecCond { and: Some((t, Box::new(d))), ..c },
    }
}

/// Joining `x` and then `y` at the end of a chain of sub-conditions gives the chain with
/// `x` joined, where `y` is joined at the end of `x`'s chain: every new sub-condition goes
/// at the end of the chain
pub proof fn lemma_add_and_at_end(c: SpecCond, t1: AndType, x: SpecCond, t2: AndType, y: SpecCond)
    ensures
        spec_add_and(spec_add_and(c, t1, x), t2, y) == spec_add_and(c, t1, spec_add_and(x, t2, y)),
    decreases c,
{
    match c.and {
        None => {},
        Some((t0, inner)) => {
            lemma_add_and_at_end(*inner, t1, x, t2, y);
        },
    }
}

impl<'s> Cond<'s> {
    /// Creates a condition with no sub-condition
    pub fn new(kind: CondType, before: Vec<RuleToken<'s>>, after: Vec<RuleToken<'s>>) -> (r: Self)
        ensures
            cond_view(r) == (SpecCond { kind, before: tokens_view(before@), after: tokens_view(after@), and: None }),
    {
        Cond { kind, before, after, and: None }
    }

    /// Joins a sub-condition at the end of the chain of sub-conditions
    pub fn add_and(&mut self, and_type: AndType, and: Self)
        ensures
            cond_view(*final(self)) == spec_add_and(cond_view(*old(self)), and_type, cond_view(and)),
        decreases *old(self),
    {
        match &mut self.and {
            Some((_, inner)) => {
                inner.add_and(and_type, and);
            },
            None => {
                self.and = Some((and_type, Box::new(and)));
            },
        }
    }

    /// Sets the sub-condition joined to this condition, in place of any it had
    pub fn set_and(&mut self, and_type: AndType, and: Self)
        ensures
            cond_view(*final(self)) == (SpecCond { and: Some((and_type, Box::new(cond_view(and)))), ..cond_view(*old(self)) }),
    {
        self.and = Some((and_type, Box::new(and)));
    }

    /// The type of condition
    pub fn kind(&self) -> (r: CondType)
        ensures
            r == cond_view(*self).kind,
    {
        self.kind
    }

    /// The left side of the condition
    pub fn left(&self) -> (r: &[RuleToken<'s>])
        ensures
            tokens_view(r@) == cond_view(*self).before,
    {
        self.before.as_slice()
    }

    /// The right side of the condition
    pub fn right(&self) -> (r: &[RuleToken<'s>])
        ensures
            tokens_view(r@) == cond_view(*self).after,
    {
        self.after.as_slice()
    }

    /// The joined sub-condition
    pub fn and(&self) -> (r: Option<(AndType, &Cond<'s>)>)
        ensures
            match r {
                Some((t, inner)) => cond_view(*self).and == Some((t, Box::new(cond_view(*inner)))),
                None => cond_view(*self).and is None,
            },
    {
        match &self.and {
            Some((t, inner)) => Some((*t, &**inner)),
            None => None,
        }
    }
}

impl<'s> Clone for Cond<'s> {
    /// A copy of the condition with its sub-conditions
    fn clone(&self) -> (r: Self)
        ensures
            cond_view(r) == cond_view(*self),
        decreases self,
    {
        let and = match &self.and {
            Some((t, inner)) => Some((*t, Box::new((**inner).clone()))),
            None => None,
        };
        Cond { kind: self.kind, before: clone_tokens(self.before.as_slice()), after: clone_tokens(self.after.as_slice()), and }
    }
}

/// A copy of a list of conditions
fn clone_conds<'s>(cs: &[Cond<'s>]) -> (r: Vec<Cond<'s>>)
    ensures
        conds_view(r@) == conds_view(cs@),
{
    let mut out: Vec<Cond<'s>> = Vec::new();
    let mut k: usize = 0;
    while k < cs.len()
        invariant
            k <= cs@.len(),
            conds_view(out@) == conds_view(cs@.subrange(0, k as int)),
        decreases cs@.len() - k,
    {
        let c = cs[k].clone();
        let ghost prev = out@;
        out.push(c);
        proof {
            let pre = cs@.subrange(0, k as int);
            let now = cs@.subrange(0, k + 1);
            assert(now =~= pre.push(cs@[k as int]));
            assert(out@ =~= prev.push(c));
            assert(conds_view(out@) =~= conds_view(prev).push(cond_view(c)));
            assert(conds_view(now) =~= conds_view(pre).push(cond_view(cs@[k as int])));
        }
        k += 1;
    }
    assert(cs@.subrange(0, k as int) =~= cs@);
    out
}

impl<'s> Default for Cond<'s> {
    fn default() -> (r: Self)
        ensures
            cond_view(r) == spec_default_cond(),
    {
        let r = Cond { kind: CondType::Pattern, before: Vec::new(), after: Vec::new(), and: None };
        proof {
            lemma_tokens_view_len(r.before@);
            assert(tokens_view(r.before@) =~= Seq::<SpecRuleToken>::empty());
        }
        r
    }
}


/// The position of the first occurrence of `t` in `tokens` (the length if there is none)
pub open spec fn index_of<'s>(tokens: Seq<IrToken<'s>>, t: IrToken<'s>) -> nat
    decreases tokens.len(),
{
    if tokens.len() == 0 {
        0
    } else if tokens[0] == t {
        0
    } else {
        1 + index_of(tokens.skip(1), t)
    }
}

/// The focus of a condition: a pattern focus if there is one, else a match focus
pub open spec fn spec_cond_focus<'s>(tokens: Seq<IrToken<'s>>) -> Option<CondType> {
    if tokens.contains(IrToken::CondType(CondType::Pattern)) {
        Some(CondType::Pattern)
    } else if tokens.contains(IrToken::CondType(CondType::Match)) {
        Some(CondType::Match)
    } else {
        None
    }
}

/// The rule tokens of a side of a condition (which gets no default labels)
pub open spec fn spec_parse_side<'s>(tokens: Seq<IrToken<'s>>) -> Result<Seq<SpecRuleToken>, RuleStructureError<'s>> {
    match spec_parse(tokens, 0, None, None, ParseMode::Top) {
        Ok((items, _, _, _)) => Ok(items),
        Err(e) => Err(e),
    }
}

/// The rule tokens of an input or output (with default labels counted from zero)
pub open spec fn spec_parse_io<'s>(tokens: Seq<IrToken<'s>>) -> Result<Seq<SpecRuleToken>, RuleStructureError<'s>> {
    match spec_parse(tokens, 0, Some((0, 0, 0)), None, ParseMode::Top) {
        Ok((items, _, _, _)) => Ok(items),
        Err(e) => Err(e),
    }
}

/// The condition made of the tokens of a condition region: the tokens before
/// its focus and the tokens after it
pub open spec fn spec_ir_to_cond<'s>(tokens: Seq<IrToken<'s>>) -> Result<SpecCond, RuleStructureError<'s>> {
    match spec_cond_focus(tokens) {
        None => Err(RuleStructureError::NoConditionFocus),
        Some(f) => {
            let k = index_of(tokens, IrToken::CondType(f)) as int;
            match spec_parse_side(tokens.take(k)) {
                Err(e) => Err(e),
                Ok(before) => match spec_parse_side(tokens.skip(k + 1)) {
                    Err(e) => Err(e),
                    Ok(after) => Ok(SpecCond { kind: f, before, after, and: None }),
                },
            }
        },
    }
}

proof fn lemma_index_of<'s>(tokens: Seq<IrToken<'s>>, t: IrToken<'s>, k: int)
    requires
        0 <= k <= tokens.len(),
        forall|j: int| 0 <= j < k ==> tokens[j] != t,
        k == tokens.len() || tokens[k] == t,
    ensures
        index_of(tokens, t) == k,
    decreases tokens.len(),
{
    if tokens.len() > 0 && k > 0 {
        lemma_index_of(tokens.skip(1), t, k - 1);
    }
}

/// Reads the rule tokens of a whole list of ir tokens
fn parse_all<'s>(tokens: &Vec<IrToken<'s>>, labeled: bool) -> (r: Result<Vec<RuleToken<'s>>, RuleStructureError<'s>>)
    ensures
        labeled ==> match r {
            Ok(v) => spec_parse_io(tokens@) == Ok::<_, RuleStructureError<'s>>(tokens_view(v@)),
            Err(e) => spec_parse_io(tokens@) == Err::<Seq<SpecRuleToken>, _>(e),
        },
        !labeled ==> match r {
            Ok(v) => spec_parse_side(tokens@) == Ok::<_, RuleStructureError<'s>>(tokens_view(v@)),
            Err(e) => spec_parse_side(tokens@) == Err::<Seq<SpecRuleToken>, _>(e),
        },
{
    let mut ids = if labeled { Some((0usize, 0usize, 0usize)) } else { None };
    let n = tokens.len();
    assert(ids_fit(ids_view(ids), tokens@.len() - 0));
    let (items, _, _) = parse_tokens(tokens.as_slice(), 0, &mut ids, None, ParseMode::Top)?;
    Ok(items)
}

/// Converts the ir tokens of a condition region to a condition
fn ir_to_cond<'s>(tokens: &Vec<IrToken<'s>>) -> (r: Result<Cond<'s>, RuleStructureError<'s>>)
    ensures
        match r {
            Ok(c) => spec_ir_to_cond(tokens@) == Ok::<_, RuleStructureError<'s>>(cond_view(c)),
            Err(e) => spec_ir_to_cond(tokens@) == Err::<SpecCond, _>(e),
        },
{
    let n = tokens.len();
    let mut has_pattern = false;
    let mut has_match = false;
    let mut i: usize = 0;
    while i < n
        invariant
            n == tokens@.len(),
            i <= n,
            has_pattern == tokens@.subrange(0, i as int).contains(IrToken::CondType(CondType::Pattern)),
            has_match == tokens@.subrange(0, i as int).contains(IrToken::CondType(CondType::Match)),
        decreases n - i,
    {
        let ghost sub = tokens@.subrange(0, i as int);
        let ghost sub1 = tokens@.subrange(0, i + 1);
        match tokens[i] {
            IrToken::CondType(CondType::Pattern) => { has_pattern = true; },
            IrToken::CondType(CondType::Match) => { has_match = true; },
            _ => {},
        }
        proof {
            assert forall|t: IrToken<'s>| sub1.contains(t) <==> (sub.contains(t) || tokens@[i as int] == t) by {
                if sub1.contains(t) {
                    let k = choose|k: int| 0 <= k < sub1.len() && sub1[k] == t;
                    if k < i {
                        assert(sub[k] == t);
                    }
                }
                if sub.contains(t) {
                    let k = choose|k: int| 0 <= k < sub.len() && sub[k] == t;
                    assert(sub1[k] == t);
                }
                if tokens@[i as int] == t {
                    assert(sub1[i as int] == t);
                }
            }
        }
        i += 1;
    }
    assert(tokens@.subrange(0, n as int) =~= tokens@);
    let focus = if has_pattern {
        CondType::Pattern
    } else if has_match {
        CondType::Match
    } else {
        return Err(RuleStructureError::NoConditionFocus);
    };
    let ghost ft = IrToken::CondType(focus);
    let mut k: usize = 0;
    while k < n && !(matches!(tokens[k], IrToken::CondType(f) if crate::token_checker::cond_type_eq(f, focus)))
        invariant
            n == tokens@.len(),
            k <= n,
            ft == IrToken::CondType(focus),
            tokens@.contains(ft),
            forall|j: int| 0 <= j < k ==> tokens@[j] != ft,
        decreases n - k,
    {
        k += 1;
    }
    proof {
        if k == n {
            let j = choose|j: int| 0 <= j < tokens@.len() && tokens@[j] == ft;
            assert(tokens@[j] != ft);
        }
        lemma_index_of(tokens@, ft, k as int);
    }
    let mut before: Vec<IrToken<'s>> = Vec::new();
    let mut j: usize = 0;
    while j < k
        invariant
            k < n,
            n == tokens@.len(),
            j <= k,
            before@ == tokens@.subrange(0, j as int),
        decreases k - j,
    {
        before.push(tokens[j]);
        j += 1;
        assert(before@ =~= tokens@.subrange(0, j as int));
    }
    let mut after: Vec<IrToken<'s>> = Vec::new();
    let mut j: usize = k + 1;
    while j < n
        invariant
            k < n,
            n == tokens@.len(),
            k + 1 <= j <= n,
            after@ == tokens@.subrange(k + 1, j as int),
        decreases n - j,
    {
        after.push(tokens[j]);
        j += 1;
        assert(after@ =~= tokens@.subrange(k + 1, j as int));
    }
    assert(before@ =~= tokens@.take(k as int));
    assert(after@ =~= tokens@.skip(k + 1));
    let before_tokens = parse_all(&before, false)?;
    let after_tokens = parse_all(&after, false)?;
    Ok(Cond::new(focus, before_tokens, after_tokens))
}


// ---------------------------------------------------------------------------
// Rules

/// A collection of data that define a sound change rule
#[derive(Debug, PartialEq, Eq)]
pub struct SoundChangeRule<'s> {
    /// How the change is applied
    pub kind: Shift,
    /// The tokens that represent an input
    pub input: Vec<RuleToken<'s>>,
    /// The tokens that represent what should replace the input
    pub output: Vec<RuleToken<'s>>,
    /// The environments in which the input should be replaced
    pub conds: Vec<Cond<'s>>,
    /// The environments in which the input should not be replaced
    pub anti_conds: Vec<Cond<'s>>,
}

/// The mathematical value of a sound change rule
pub struct SpecRule {
    pub kind: Shift,
    pub input: Seq<SpecRuleToken>,
    pub output: Seq<SpecRuleToken>,
    pub conds: Seq<SpecCond>,
    pub anti_conds: Seq<SpecCond>,
}

/// The mathematical value of a sound change rule
pub open spec fn rule_view(r: SoundChangeRule) -> SpecRule {
    SpecRule {
        kind: r.kind,
        input: tokens_view(r.input@),
        output: tokens_view(r.output@),
        conds: conds_view(r.conds@),
        anti_conds: conds_view(r.anti_conds@),
    }
}

impl<'s> Clone for SoundChangeRule<'s> {
    /// A copy of the rule
    fn clone(&self) -> (r: Self)
        ensures
            rule_view(r) == rule_view(*self),
    {
        SoundChangeRule {
            kind: self.kind,
            input: clone_tokens(self.input.as_slice()),
            output: clone_tokens(self.output.as_slice()),
            conds: clone_conds(self.conds.as_slice()),
            anti_conds: clone_conds(self.anti_conds.as_slice()),
        }
    }
}

/// A rule, a command, or nothing, representing a line of source code
#[derive(Debug, PartialEq, Eq)]
pub enum RuleLine<'s> {
    Rule(SoundChangeRule<'s>),
    Cmd(RuntimeCmd, &'s str),
    Empty,
}

/// The mathematical value of a rule line
pub enum SpecRuleLine<'s> {
    Rule(SpecRule),
    Cmd(RuntimeCmd, &'s str),
    Empty,
}

/// The mathematical value of a rule line
pub open spec fn rule_line_view<'s>(l: RuleLine<'s>) -> SpecRuleLine<'s> {
    match l {
        RuleLine::Rule(r) => SpecRuleLine::Rule(rule_view(r)),
        RuleLine::Cmd(c, a) => SpecRuleLine::Cmd(c, a),
        RuleLine::Empty => SpecRuleLine::Empty,
    }
}

/// The conditions and anti-conditions, and whether anti-conditions have begun,
/// after the condition regions before `n` (from the third region on)
pub open spec fn conds_prefix<'s>(regions: Seq<(Option<Break>, Seq<IrToken<'s>>)>, n: nat) -> Result<(Seq<SpecCond>, Seq<SpecCond>, bool), RuleStructureError<'s>>
    decreases n,
{
    if n <= 2 {
        Ok((Seq::empty(), Seq::empty(), false))
    } else {
        match conds_prefix(regions, (n - 1) as nat) {
            Err(e) => Err(e),
            Ok((conds, anti_conds, to_anti)) => {
                let region = regions[n - 1];
                match region.0 {
                    Some(Break::Shift(shift)) => Err(RuleStructureError::SecondShift(shift)),
                    Some(Break::Cond) => match spec_ir_to_cond(region.1) {
                        Err(e) => Err(e),
                        Ok(c) => Ok((conds.push(c), anti_conds, to_anti)),
                    },
                    Some(Break::AntiCond) => match spec_ir_to_cond(region.1) {
                        Err(e) => Err(e),
                        Ok(c) => Ok((conds, anti_conds.push(c), true)),
                    },
                    Some(Break::And(t)) => match spec_ir_to_cond(region.1) {
                        Err(e) => Err(e),
                        Ok(c) => if to_anti {
                            if anti_conds.len() == 0 {
                                Err(RuleStructureError::AndDoesNotFollowCond(t))
                            } else {
                                Ok((conds, anti_conds.update(anti_conds.len() - 1, spec_add_and(anti_conds.last(), t, c)), true))
                            }
                        } else {
                            if conds.len() == 0 {
                                Err(RuleStructureError::AndDoesNotFollowCond(t))
                            } else {
                                Ok((conds.update(conds.len() - 1, spec_add_and(conds.last(), t, c)), anti_conds, false))
                            }
                        },
                    },
                    None => Ok((conds, anti_conds, to_anti)),
                }
            },
        }
    }
}

/// The rule that a line of ir tokens stands for: the tokens before the shift
/// are the input, those after it the output, and then come conditions and
/// anti-conditions, each with the sub-conditions joined to it; a rule with
/// no condition gets the condition that always holds
pub open spec fn spec_build_rule<'s>(line: IrLine<'s>) -> Result<SpecRuleLine<'s>, RuleStructureError<'s>> {
    match line {
        IrLine::Empty => Ok(SpecRuleLine::Empty),
        IrLine::Cmd(cmd, args) => Ok(SpecRuleLine::Cmd(cmd, args)),
        IrLine::Ir(tokens) => if tokens@.len() == 0 {
            Ok(SpecRuleLine::Empty)
        } else {
            let regions = spec_regionize(tokens@);
            match spec_parse_io(regions[0].1) {
                Err(e) => Err(e),
                Ok(input) => if regions.len() < 2 {
                    Err(RuleStructureError::NoShift)
                } else {
                    match regions[1].0 {
                        Some(Break::Shift(shift)) => match spec_parse_io(regions[1].1) {
                            Err(e) => Err(e),
                            Ok(output) => match conds_prefix(regions, regions.len()) {
                                Err(e) => Err(e),
                                Ok((conds, anti_conds, _)) => Ok(SpecRuleLine::Rule(SpecRule {
                                    kind: shift,
                                    input,
                                    output,
                                    conds: if conds.len() == 0 { seq![spec_default_cond()] } else { conds },
                                    anti_conds,
                                })),
                            },
                        },
                        Some(b) => Err(RuleStructureError::BreakWithoutShift(b)),
                        None => Err(RuleStructureError::NoShift),
                    }
                },
            }
        },
    }
}

proof fn lemma_conds_failed_stays<'s>(regions: Seq<(Option<Break>, Seq<IrToken<'s>>)>, i: nat, n: nat)
    requires
        i <= n,
        conds_prefix(regions, i) is Err,
    ensures
        conds_prefix(regions, n) == conds_prefix(regions, i),
    decreases n - i,
{
    if i < n {
        lemma_conds_failed_stays(regions, i, (n - 1) as nat);
        if n - 1 < 2 {
            assert(conds_prefix(regions, (n - 1) as nat) is Ok);
        }
    }
}

/// Joins `c` by `t` to the last condition of `conds`
fn and_last<'s>(conds: &mut Vec<Cond<'s>>, t: AndType, c: Cond<'s>)
    requires
        old(conds)@.len() > 0,
    ensures
        conds_view(final(conds)@) == conds_view(old(conds)@).update(
            old(conds)@.len() - 1,
            spec_add_and(conds_view(old(conds)@).last(), t, cond_view(c)),
        ),
{
    let mut last = conds.pop().unwrap();
    last.add_and(t, c);
    conds.push(last);
    assert(conds_view(conds@) =~= conds_view(old(conds)@).update(
        old(conds)@.len() - 1,
        spec_add_and(conds_view(old(conds)@).last(), t, cond_view(c)),
    ));
}

/// Builds a sound change rule out of a line of ir tokens
///
/// The ir tokens should be checked for proper structure before being passed to this function
pub fn build_rule<'s>(line: &IrLine<'s>) -> (r: Result<RuleLine<'s>, RuleStructureError<'s>>)
    ensures
        match r {
            Ok(l) => spec_build_rule(*line) == Ok::<_, RuleStructureError<'s>>(rule_line_view(l)),
            Err(e) => spec_build_rule(*line) == Err::<SpecRuleLine<'s>, _>(e),
        },
{
    let tokens = match line {
        IrLine::Empty => return Ok(RuleLine::Empty),
        IrLine::Cmd(cmd, args) => return Ok(RuleLine::Cmd(*cmd, args)),
        IrLine::Ir(tokens) => tokens,
    };
    if tokens.len() == 0 {
        return Ok(RuleLine::Empty);
    }
    let regions = regionize_ir(tokens.as_slice());
    let ghost rv = regions_view(regions@);
    assert(rv[0].1 == regions@[0].1@);
    let input = parse_all(&regions[0].1, true)?;
    if regions.len() < 2 {
        return Err(RuleStructureError::NoShift);
    }
    assert(rv[1] == (regions@[1].0, regions@[1].1@));
    let shift = match regions[1].0 {
        Some(Break::Shift(shift)) => shift,
        Some(b) => return Err(RuleStructureError::BreakWithoutShift(b)),
        None => return Err(RuleStructureError::NoShift),
    };
    let output = parse_all(&regions[1].1, true)?;
    let mut conds: Vec<Cond<'s>> = Vec::new();
    let mut anti_conds: Vec<Cond<'s>> = Vec::new();
    let mut to_anti = false;
    let n = regions.len();
    let mut k: usize = 2;
    assert(conds_view(conds@) =~= Seq::<SpecCond>::empty());
    assert(conds_view(anti_conds@) =~= Seq::<SpecCond>::empty());
    while k < n
        invariant
            2 <= k <= n,
            n == regions@.len(),
            rv == regions_view(regions@),
            conds_prefix(rv, k as nat) == Ok::<_, RuleStructureError<'s>>((conds_view(conds@), conds_view(anti_conds@), to_anti)),
            *line == IrLine::Ir(*tokens),
            tokens@.len() > 0,
            rv == spec_regionize(tokens@),
            spec_parse_io(rv[0].1) == Ok::<_, RuleStructureError<'s>>(tokens_view(input@)),
            rv[1].0 == Some(Break::Shift(shift)),
            spec_parse_io(rv[1].1) == Ok::<_, RuleStructureError<'s>>(tokens_view(output@)),
        decreases n - k,
    {
        assert(rv[k as int] == (regions@[k as int].0, regions@[k as int].1@));
        let mut err: Option<RuleStructureError<'s>> = None;
        match regions[k].0 {
            Some(Break::Shift(shift)) => {
                err = Some(RuleStructureError::SecondShift(shift));
            },
            Some(Break::Cond) => {
                match ir_to_cond(&regions[k].1) {
                    Ok(c) => {
                        let ghost before = conds_view(conds@);
                        conds.push(c);
                        assert(conds_view(conds@) =~= before.push(cond_view(c)));
                    },
                    Err(e) => { err = Some(e); },
                }
            },
            Some(Break::AntiCond) => {
                match ir_to_cond(&regions[k].1) {
                    Ok(c) => {
                        let ghost before = conds_view(anti_conds@);
                        anti_conds.push(c);
                        assert(conds_view(anti_conds@) =~= before.push(cond_view(c)));
                        to_anti = true;
                    },
                    Err(e) => { err = Some(e); },
                }
            },
            Some(Break::And(t)) => {
                match ir_to_cond(&regions[k].1) {
                    Ok(c) => {
                        if to_anti {
                            if anti_conds.len() == 0 {
                                err = Some(RuleStructureError::AndDoesNotFollowCond(t));
                            } else {
                                and_last(&mut anti_conds, t, c);
                            }
                        } else {
                            if conds.len() == 0 {
                                err = Some(RuleStructureError::AndDoesNotFollowCond(t));
                            } else {
                                and_last(&mut conds, t, c);
                            }
                        }
                    },
                    Err(e) => { err = Some(e); },
                }
            },
            None => {},
        }
        if let Some(e) = err {
            assert(conds_prefix(rv, (k + 1) as nat) == Err::<(Seq<SpecCond>, Seq<SpecCond>, bool), _>(e));
            proof {
                lemma_conds_failed_stays(rv, (k + 1) as nat, n as nat);
            }
            return Err(e);
        }
        k += 1;
        assert(conds_view(conds@) == conds_prefix(rv, k as nat)->Ok_0.0);
    }
    if conds.len() == 0 {
        conds.push(Cond::default());
        assert(conds_view(conds@) =~= seq![spec_default_cond()]);
    }
    Ok(RuleLine::Rule(SoundChangeRule { kind: shift, input, output, conds, anti_conds }))
}

/// Builds sound change rules out of lines of ir tokens;
/// an error is returned with its line number (counted from 1)
pub fn build_rules<'s>(token_lines: &[IrLine<'s>]) -> (r: Result<Vec<RuleLine<'s>>, (RuleStructureError<'s>, usize)>)
    ensures
        match r {
            Ok(v) => {
                &&& v@.len() == token_lines@.len()
                &&& forall|k: int| #![trigger token_lines@[k]] 0 <= k < v@.len() ==> spec_build_rule(token_lines@[k]) == Ok::<_, RuleStructureError<'s>>(rule_line_view(v@[k]))
            },
            Err((e, line_num)) => {
                &&& 1 <= line_num <= token_lines@.len()
                &&& spec_build_rule(token_lines@[line_num - 1]) == Err::<SpecRuleLine<'s>, _>(e)
                &&& forall|k: int| #![trigger token_lines@[k]] 0 <= k < line_num - 1 ==> spec_build_rule(token_lines@[k]) is Ok
            },
        },
{
    let mut rules: Vec<RuleLine<'s>> = Vec::new();
    let mut i: usize = 0;
    while i < token_lines.len()
        invariant
            i <= token_lines@.len(),
            rules@.len() == i,
            forall|k: int| #![trigger token_lines@[k]] 0 <= k < i ==> spec_build_rule(token_lines@[k]) == Ok::<_, RuleStructureError<'s>>(rule_line_view(rules@[k])),
        decreases token_lines@.len() - i,
    {
        match build_rule(&token_lines[i]) {
            Ok(rule) => rules.push(rule),
            Err(e) => return Err((e, i + 1)),
        }
        i += 1;
    }
    Ok(rules)
}

}
