use vstd::prelude::*;
use crate::ir::{Break, IrLine, IrToken};
use crate::tokens::{CondType, ScopeType, Shift};

verus! {

/// Errors that occur when checking the validity of ir tokens,
/// indicating an invalid structure
#[derive(Debug, PartialEq, Eq)]
pub enum IrStructureError<'s> {
    UnopenedScope(ScopeType),
    UnclosedScope(ScopeType),
    MismatchedScopeBounds(ScopeType, ScopeType),
    MisplacedArgSep,
    DisallowedTokenInScope(IrToken<'s>),
    SelectionDoesNotProceedScope(&'s str),
    NoShift,
    ShiftAfterShift(Break),
    BreakBeforeShift(Break),
    AntiCondBeforeCond,
    NoInputInCond,
    ManyInputsInCond,
    FocusOutOfCond(CondType),
    GapOutOfCond,
    AndOutOfCond,
}

// ---------------------------------------------------------------------------
// Scopes

/// The state of a scope check after some tokens: an error, or the open scopes
/// and a label waiting for what it labels
pub enum ScopeCheck<'s> {
    Failed(IrStructureError<'s>),
    Open { stack: Seq<ScopeType>, selecting: Option<&'s str> },
}

/// One token of the scope check
pub open spec fn scope_step<'s>(st: ScopeCheck<'s>, t: IrToken<'s>) -> ScopeCheck<'s> {
    match st {
        ScopeCheck::Failed(e) => ScopeCheck::Failed(e),
        ScopeCheck::Open { stack, selecting } => match t {
            IrToken::ScopeStart(kind) => ScopeCheck::Open { stack: stack.push(kind), selecting: None },
            IrToken::Any => ScopeCheck::Open { stack, selecting: None },
            IrToken::Gap => ScopeCheck::Open { stack, selecting: None },
            _ => if selecting is Some {
                ScopeCheck::Failed(IrStructureError::SelectionDoesNotProceedScope(selecting->0))
            } else {
                match t {
                    IrToken::Phone(_) => ScopeCheck::Open { stack, selecting },
                    IrToken::Label(name) => ScopeCheck::Open { stack, selecting: Some(name) },
                    IrToken::ScopeEnd(end_type) => if stack.len() == 0 {
                        ScopeCheck::Failed(IrStructureError::UnopenedScope(end_type))
                    } else if stack.last() != end_type {
                        ScopeCheck::Failed(IrStructureError::MismatchedScopeBounds(stack.last(), end_type))
                    } else {
                        ScopeCheck::Open { stack: stack.drop_last(), selecting }
                    },
                    IrToken::ArgSep => if stack.len() == 0 || stack.last() != ScopeType::Selection {
                        ScopeCheck::Failed(IrStructureError::MisplacedArgSep)
                    } else {
                        ScopeCheck::Open { stack, selecting }
                    },
                    _ => if stack.len() == 0 {
                        ScopeCheck::Open { stack, selecting }
                    } else {
                        ScopeCheck::Failed(IrStructureError::DisallowedTokenInScope(t))
                    },
                }
            },
        },
    }
}

/// The scope check after the first `n` tokens of `line`
pub open spec fn scope_prefix<'s>(line: Seq<IrToken<'s>>, n: nat) -> ScopeCheck<'s>
    decreases n,
{
    if n == 0 {
        ScopeCheck::Open { stack: Seq::empty(), selecting: None }
    } else {
        scope_step(scope_prefix(line, (n - 1) as nat), line[n - 1])
    }
}

/// The outcome of the scope check of a line: the first error met, or an
/// unclosed scope left at the end
pub open spec fn spec_check_scopes<'s>(line: Seq<IrToken<'s>>) -> Result<(), IrStructureError<'s>> {
    match scope_prefix(line, line.len()) {
        ScopeCheck::Failed(e) => Err(e),
        ScopeCheck::Open { stack, .. } => if stack.len() > 0 {
            Err(IrStructureError::UnclosedScope(stack.last()))
        } else {
            Ok(())
        },
    }
}

proof fn lemma_scope_failed_stays<'s>(line: Seq<IrToken<'s>>, i: nat, n: nat)
    requires
        i <= n <= line.len(),
        scope_prefix(line, i) is Failed,
    ensures
        scope_prefix(line, n) == scope_prefix(line, i),
    decreases n - i,
{
    if i < n {
        lemma_scope_failed_stays(line, i, (n - 1) as nat);
    }
}

/// Checks that all scopes are properly opened and closed, that argument
/// separators only occur in selection scopes, that labels only precede
/// scopes, anys and gaps, and that only phones, labels and scopes
/// (and separators in selections) occur in scopes
fn check_scopes<'s>(line: &[IrToken<'s>]) -> (r: Result<(), IrStructureError<'s>>)
    ensures
        r == spec_check_scopes(line@),
{
    let mut stack: Vec<ScopeType> = Vec::new();
    let mut selecting: Option<&'s str> = None;
    let mut i: usize = 0;
    while i < line.len()
        invariant
            i <= line@.len(),
            scope_prefix(line@, i as nat) == (ScopeCheck::Open { stack: stack@, selecting }),
        decreases line@.len() - i,
    {
        let token = line[i];
        let ghost before = scope_prefix(line@, i as nat);
        let mut err: Option<IrStructureError<'s>> = None;
        match token {
            IrToken::ScopeStart(kind) => {
                selecting = None;
                stack.push(kind);
            },
            IrToken::Any | IrToken::Gap => {
                selecting = None;
            },
            _ => {
                if let Some(name) = selecting {
                    err = Some(IrStructureError::SelectionDoesNotProceedScope(name));
                } else {
                    match token {
                        IrToken::Phone(_) => {},
                        IrToken::Label(name) => {
                            selecting = Some(name);
                        },
                        IrToken::ScopeEnd(end_type) => {
                            if stack.len() == 0 {
                                err = Some(IrStructureError::UnopenedScope(end_type));
                            } else {
                                let start_type = stack[stack.len() - 1];
                                if !scope_type_eq(start_type, end_type) {
                                    err = Some(IrStructureError::MismatchedScopeBounds(start_type, end_type));
                                } else {
                                    stack.pop();
                                }
                            }
                        },
                        IrToken::ArgSep => {
                            if stack.len() == 0 || !scope_type_eq(stack[stack.len() - 1], ScopeType::Selection) {
                                err = Some(IrStructureError::MisplacedArgSep);
                            }
                        },
                        _ => {
                            if stack.len() != 0 {
                                err = Some(IrStructureError::DisallowedTokenInScope(token));
                            }
                        },
                    }
                }
            },
        }
        if let Some(e) = err {
            assert(scope_prefix(line@, (i + 1) as nat) == ScopeCheck::Failed(e));
            proof {
                lemma_scope_failed_stays(line@, (i + 1) as nat, line@.len());
            }
            return Err(e);
        }
        i += 1;
        assert(scope_prefix(line@, i as nat) =~= (ScopeCheck::Open { stack: stack@, selecting }));
    }
    if stack.len() > 0 {
        Err(IrStructureError::UnclosedScope(stack[stack.len() - 1]))
    } else {
        Ok(())
    }
}

/// Determines whether two scope types are the same
pub fn scope_type_eq(a: ScopeType, b: ScopeType) -> (r: bool)
    ensures
        r == (a == b),
{
    match (a, b) {
        (ScopeType::Optional, ScopeType::Optional) => true,
        (ScopeType::Selection, ScopeType::Selection) => true,
        _ => false,
    }
}


// ---------------------------------------------------------------------------
// Regions

/// The regions of a line after its first `n` tokens
pub open spec fn regions_prefix<'s>(line: Seq<IrToken<'s>>, n: nat) -> Seq<(Option<Break>, Seq<IrToken<'s>>)>
    decreases n,
{
    if n == 0 {
        seq![(None, Seq::empty())]
    } else {
        let prev = regions_prefix(line, (n - 1) as nat);
        match line[n - 1] {
            IrToken::Break(b) => prev.push((Some(b), Seq::empty())),
            t => prev.update(prev.len() - 1, (prev.last().0, prev.last().1.push(t))),
        }
    }
}

/// A line split into regions: the first holds the tokens before any break,
/// each other one a break and the tokens up to the next break
pub open spec fn spec_regionize<'s>(line: Seq<IrToken<'s>>) -> Seq<(Option<Break>, Seq<IrToken<'s>>)> {
    regions_prefix(line, line.len())
}

proof fn lemma_regions_shape<'s>(line: Seq<IrToken<'s>>, n: nat)
    requires
        n <= line.len(),
    ensures
        regions_prefix(line, n).len() >= 1,
        regions_prefix(line, n)[0].0 is None,
        forall|k: int| 1 <= k < regions_prefix(line, n).len() ==> (#[trigger] regions_prefix(line, n)[k]).0 is Some,
    decreases n,
{
    if n > 0 {
        lemma_regions_shape(line, (n - 1) as nat);
    }
}

/// The mathematical value of a list of regions
pub open spec fn regions_view<'s>(v: Seq<(Option<Break>, Vec<IrToken<'s>>)>) -> Seq<(Option<Break>, Seq<IrToken<'s>>)> {
    v.map_values(|r: (Option<Break>, Vec<IrToken<'s>>)| (r.0, r.1@))
}

/// Converts a line of ir into regions where each (except the first) starts with a break
///
/// The first region has no break and all others have one; there is always at least one region
pub fn regionize_ir<'s>(tokens: &[IrToken<'s>]) -> (regions: Vec<(Option<Break>, Vec<IrToken<'s>>)>)
    ensures
        regions_view(regions@) == spec_regionize(tokens@),
        regions@.len() >= 1,
        regions@[0].0 is None,
        forall|k: int| 1 <= k < regions@.len() ==> (#[trigger] regions@[k]).0 is Some,
{
    let mut regions: Vec<(Option<Break>, Vec<IrToken<'s>>)> = Vec::new();
    regions.push((None, Vec::new()));
    let mut i: usize = 0;
    assert(regions_view(regions@) =~= regions_prefix(tokens@, 0));
    while i < tokens.len()
        invariant
            i <= tokens@.len(),
            regions@.len() >= 1,
            regions_view(regions@) == regions_prefix(tokens@, i as nat),
        decreases tokens@.len() - i,
    {
        let ghost prev = regions_view(regions@);
        let token = tokens[i];
        match token {
            IrToken::Break(b) => {
                regions.push((Some(b), Vec::new()));
            },
            _ => {
                let last = regions.len() - 1;
                let (b, mut list) = regions.remove(last);
                list.push(token);
                regions.push((b, list));
            },
        }
        i += 1;
        assert(regions_view(regions@) =~= regions_prefix(tokens@, i as nat));
    }
    proof {
        lemma_regions_shape(tokens@, tokens@.len());
        assert forall|k: int| 1 <= k < regions@.len() implies (#[trigger] regions@[k]).0 is Some by {
            assert(regions_view(regions@)[k].0 == regions@[k].0);
        }
        assert(regions_view(regions@)[0].0 == regions@[0].0);
    }
    regions
}

// ---------------------------------------------------------------------------
// Breaks

/// Whether a region starts with a shift
pub open spec fn is_shift_break(b: Option<Break>) -> bool {
    b matches Some(Break::Shift(_))
}

/// The check of break order after the regions before `n` (from the third region on):
/// whether a condition and an anti-condition have been found, or the error met
pub open spec fn order_prefix<'s>(regions: Seq<(Option<Break>, Seq<IrToken<'s>>)>, n: nat) -> Result<(bool, bool), IrStructureError<'s>>
    decreases n,
{
    if n <= 2 {
        Ok((false, false))
    } else {
        match order_prefix(regions, (n - 1) as nat) {
            Err(e) => Err(e),
            Ok((found_conds, found_anti_conds)) => match regions[n - 1].0 {
                Some(Break::Shift(shift)) => Err(IrStructureError::ShiftAfterShift(Break::Shift(shift))),
                Some(Break::Cond) => if found_anti_conds {
                    Err(IrStructureError::AntiCondBeforeCond)
                } else {
                    Ok((true, found_anti_conds))
                },
                Some(Break::AntiCond) => Ok((true, true)),
                Some(Break::And(_)) => if found_conds {
                    Ok((found_conds, found_anti_conds))
                } else {
                    Err(IrStructureError::AndOutOfCond)
                },
                None => Ok((found_conds, found_anti_conds)),
            },
        }
    }
}

/// The number of condition foci in a list of tokens
pub open spec fn count_foci<'s>(tokens: Seq<IrToken<'s>>) -> nat
    decreases tokens.len(),
{
    if tokens.len() == 0 {
        0
    } else {
        count_foci(tokens.drop_last()) + if tokens.last() is CondType { 1nat } else { 0nat }
    }
}

/// The first condition focus in a list of tokens
pub open spec fn first_focus<'s>(tokens: Seq<IrToken<'s>>) -> Option<CondType>
    decreases tokens.len(),
{
    if tokens.len() == 0 {
        None
    } else {
        match tokens[0] {
            IrToken::CondType(f) => Some(f),
            _ => first_focus(tokens.skip(1)),
        }
    }
}

/// The error in the use of foci and gaps in a region, if any
pub open spec fn region_focus_error<'s>(region: (Option<Break>, Seq<IrToken<'s>>)) -> Option<IrStructureError<'s>> {
    match region.0 {
        None => input_output_focus_error(region.1),
        Some(Break::Shift(_)) => input_output_focus_error(region.1),
        _ => if count_foci(region.1) == 0 {
            Some(IrStructureError::NoInputInCond)
        } else if count_foci(region.1) > 1 {
            Some(IrStructureError::ManyInputsInCond)
        } else {
            None
        },
    }
}

/// The error in the input or output of a rule: a focus or a gap outside of a condition
pub open spec fn input_output_focus_error<'s>(tokens: Seq<IrToken<'s>>) -> Option<IrStructureError<'s>> {
    if first_focus(tokens) is Some {
        Some(IrStructureError::FocusOutOfCond(first_focus(tokens)->0))
    } else if tokens.contains(IrToken::Gap) {
        Some(IrStructureError::GapOutOfCond)
    } else {
        None
    }
}

/// The first focus error among the first `n` regions
pub open spec fn focus_prefix<'s>(regions: Seq<(Option<Break>, Seq<IrToken<'s>>)>, n: nat) -> Option<IrStructureError<'s>>
    decreases n,
{
    if n == 0 {
        None
    } else {
        match focus_prefix(regions, (n - 1) as nat) {
            Some(e) => Some(e),
            None => region_focus_error(regions[n - 1]),
        }
    }
}

/// The outcome of the break check of a line
pub open spec fn spec_check_breaks<'s>(line: Seq<IrToken<'s>>) -> Result<(), IrStructureError<'s>> {
    let regions = spec_regionize(line);
    if regions.len() < 2 {
        Err(IrStructureError::NoShift)
    } else if !is_shift_break(regions[1].0) {
        if exists|k: int| 1 <= k < regions.len() && is_shift_break(#[trigger] regions[k].0) {
            Err(IrStructureError::BreakBeforeShift(regions[1].0->0))
        } else {
            Err(IrStructureError::NoShift)
        }
    } else {
        match order_prefix(regions, regions.len()) {
            Err(e) => Err(e),
            Ok(_) => match focus_prefix(regions, regions.len()) {
                Some(e) => Err(e),
                None => Ok(()),
            },
        }
    }
}

proof fn lemma_order_failed_stays<'s>(regions: Seq<(Option<Break>, Seq<IrToken<'s>>)>, i: nat, n: nat)
    requires
        i <= n,
        order_prefix(regions, i) is Err,
    ensures
        order_prefix(regions, n) == order_prefix(regions, i),
    decreases n - i,
{
    if i < n {
        lemma_order_failed_stays(regions, i, (n - 1) as nat);
        if n - 1 < 2 {
            assert(order_prefix(regions, (n - 1) as nat) is Ok);
        }
    }
}

proof fn lemma_focus_failed_stays<'s>(regions: Seq<(Option<Break>, Seq<IrToken<'s>>)>, i: nat, n: nat)
    requires
        i <= n,
        focus_prefix(regions, i) is Some,
    ensures
        focus_prefix(regions, n) == focus_prefix(regions, i),
    decreases n - i,
{
    if i < n {
        lemma_focus_failed_stays(regions, i, (n - 1) as nat);
    }
}

/// Counts the foci of a list of tokens and finds the first of them and whether a gap occurs
fn scan_foci<'s>(tokens: &Vec<IrToken<'s>>) -> (r: (usize, Option<CondType>, bool))
    ensures
        r.0 == count_foci(tokens@) || (r.0 == 2 && count_foci(tokens@) > 1),
        r.1 == first_focus(tokens@),
        r.2 == tokens@.contains(IrToken::Gap),
{
    let mut count: usize = 0;
    let mut first: Option<CondType> = None;
    let mut gap = false;
    let mut i: usize = 0;
    assert(tokens@.skip(0) =~= tokens@);
    assert(tokens@.subrange(0, 0) =~= Seq::<IrToken>::empty());
    while i < tokens.len()
        invariant
            i <= tokens@.len(),
            count <= 2,
            count == count_foci(tokens@.subrange(0, i as int)) || (count == 2 && count_foci(tokens@.subrange(0, i as int)) > 1),
            first is None ==> count == 0,
            first_focus(tokens@) == if first is Some { first } else { first_focus(tokens@.skip(i as int)) },
            gap == tokens@.subrange(0, i as int).contains(IrToken::Gap),
        decreases tokens@.len() - i,
    {
        let ghost sub = tokens@.subrange(0, i as int);
        let ghost sub1 = tokens@.subrange(0, i + 1);
        assert(sub1.drop_last() =~= sub);
        assert(tokens@.skip(i as int).skip(1) =~= tokens@.skip(i + 1));
        match tokens[i] {
            IrToken::CondType(f) => {
                if first.is_none() {
                    first = Some(f);
                }
                if count < 2 {
                    count += 1;
                }
            },
            IrToken::Gap => {
                gap = true;
            },
            _ => {},
        }
        proof {
            if sub1.contains(IrToken::Gap) {
                let k = choose|k: int| 0 <= k < sub1.len() && sub1[k] == IrToken::Gap;
                if k < i {
                    assert(sub[k] == IrToken::Gap);
                }
            }
            if sub.contains(IrToken::Gap) {
                let k = choose|k: int| 0 <= k < sub.len() && sub[k] == IrToken::Gap;
                assert(sub1[k] == IrToken::Gap);
            }
        }
        i += 1;
    }
    assert(tokens@.subrange(0, i as int) =~= tokens@);
    (count, first, gap)
}

/// Checks the use of foci and gaps in a region
fn check_region_foci<'s>(region: &(Option<Break>, Vec<IrToken<'s>>)) -> (r: Option<IrStructureError<'s>>)
    ensures
        r == region_focus_error((region.0, region.1@)),
{
    let (count, first, gap) = scan_foci(&region.1);
    match region.0 {
        None | Some(Break::Shift(_)) => {
            if let Some(focus) = first {
                Some(IrStructureError::FocusOutOfCond(focus))
            } else if gap {
                Some(IrStructureError::GapOutOfCond)
            } else {
                None
            }
        },
        _ => {
            if count == 0 {
                Some(IrStructureError::NoInputInCond)
            } else if count > 1 {
                Some(IrStructureError::ManyInputsInCond)
            } else {
                None
            }
        },
    }
}

/// Checks that there is exactly one shift, that conditions come after it,
/// that no anti-condition precedes a condition, that there are no foci outside
/// of (anti-)conditions, that each (anti-)condition has exactly one focus,
/// and that gaps only occur in (anti-)conditions
fn check_breaks<'s>(line: &[IrToken<'s>]) -> (r: Result<(), IrStructureError<'s>>)
    ensures
        r == spec_check_breaks(line@),
{
    let regions = regionize_ir(line);
    let ghost rv = regions_view(regions@);
    assert(rv == spec_regionize(line@));
    let n = regions.len();
    if n < 2 {
        return Err(IrStructureError::NoShift);
    }
    let second = regions[1].0;
    assert(rv[1].0 == second);
    assert(regions@[1].0 is Some);
    if !matches!(second, Some(Break::Shift(_))) {
        let mut k: usize = 1;
        while k < n
            invariant
                1 <= k <= n,
                n == regions@.len(),
                rv == regions_view(regions@),
                forall|j: int| 1 <= j < k ==> !is_shift_break(#[trigger] rv[j].0),
                rv == spec_regionize(line@),
                second is Some,
                second == rv[1].0,
                !is_shift_break(second),
            decreases n - k,
        {
            assert(rv[k as int].0 == regions@[k as int].0);
            if matches!(regions[k].0, Some(Break::Shift(_))) {
                assert(is_shift_break(rv[k as int].0));
                return Err(IrStructureError::BreakBeforeShift(second.unwrap()));
            }
            k += 1;
        }
        return Err(IrStructureError::NoShift);
    }
    let mut found_conds = false;
    let mut found_anti_conds = false;
    let mut k: usize = 2;
    while k < n
        invariant
            2 <= k <= n,
            n == regions@.len(),
            rv == regions_view(regions@),
            order_prefix(rv, k as nat) == Ok::<(bool, bool), IrStructureError<'s>>((found_conds, found_anti_conds)),
            rv == spec_regionize(line@),
            is_shift_break(rv[1].0),
        decreases n - k,
    {
        assert(rv[k as int].0 == regions@[k as int].0);
        let mut err: Option<IrStructureError<'s>> = None;
        match regions[k].0 {
            Some(Break::Shift(shift)) => {
                err = Some(IrStructureError::ShiftAfterShift(Break::Shift(shift)));
            },
            Some(Break::Cond) => {
                if found_anti_conds {
                    err = Some(IrStructureError::AntiCondBeforeCond);
                } else {
                    found_conds = true;
                }
            },
            Some(Break::AntiCond) => {
                found_conds = true;
                found_anti_conds = true;
            },
            Some(Break::And(_)) => {
                if !found_conds {
                    err = Some(IrStructureError::AndOutOfCond);
                }
            },
            None => {},
        }
        if let Some(e) = err {
            assert(order_prefix(rv, (k + 1) as nat) == Err::<(bool, bool), IrStructureError<'s>>(e));
            proof {
                lemma_order_failed_stays(rv, (k + 1) as nat, n as nat);
            }
            return Err(e);
        }
        k += 1;
        assert(order_prefix(rv, k as nat) == Ok::<(bool, bool), IrStructureError<'s>>((found_conds, found_anti_conds)));
    }
    assert(order_prefix(rv, n as nat) is Ok);
    let mut k: usize = 0;
    while k < n
        invariant
            k <= n,
            n == regions@.len(),
            rv == regions_view(regions@),
            focus_prefix(rv, k as nat) is None,
            order_prefix(rv, n as nat) is Ok,
            is_shift_break(rv[1].0),
            n >= 2,
            rv == spec_regionize(line@),
        decreases n - k,
    {
        let e = check_region_foci(&regions[k]);
        assert(rv[k as int] == (regions@[k as int].0, regions@[k as int].1@));
        if let Some(e) = e {
            assert(focus_prefix(rv, (k + 1) as nat) == Some(e));
            proof {
                lemma_focus_failed_stays(rv, (k + 1) as nat, n as nat);
            }
            return Err(e);
        }
        k += 1;
    }
    Ok(())
}

/// The outcome of checking a line: scopes first, then breaks;
/// empty lines and commands are fine
pub open spec fn spec_check_token_line<'s>(line: IrLine<'s>) -> Result<(), IrStructureError<'s>> {
    match line {
        IrLine::Ir(tokens) => if tokens@.len() == 0 {
            Ok(())
        } else {
            match spec_check_scopes(tokens@) {
                Err(e) => Err(e),
                Ok(_) => spec_check_breaks(tokens@),
            }
        },
        _ => Ok(()),
    }
}

/// Checks a line of tokens to ensure proper structure
///
/// Empty lines are considered ok
pub fn check_token_line<'s>(line: &IrLine<'s>) -> (r: Result<(), IrStructureError<'s>>)
    ensures
        r == spec_check_token_line(*line),
{
    if let IrLine::Ir(tokens) = line {
        if tokens.len() != 0 {
            check_scopes(tokens.as_slice())?;
            return check_breaks(tokens.as_slice());
        }
    }
    Ok(())
}

/// Checks a list of token lines by line to ensure proper structure,
/// returning the first error with its line number (counted from 1)
pub fn check_tokens<'s>(token_lines: &[IrLine<'s>]) -> (r: Result<(), (IrStructureError<'s>, usize)>)
    ensures
        r is Ok <==> forall|k: int| 0 <= k < token_lines@.len() ==> spec_check_token_line(#[trigger] token_lines@[k]) is Ok,
        r matches Err((e, line_num)) ==> {
            &&& 1 <= line_num <= token_lines@.len()
            &&& spec_check_token_line(token_lines@[line_num - 1]) == Err::<(), IrStructureError<'s>>(e)
            &&& forall|k: int| 0 <= k < line_num - 1 ==> spec_check_token_line(#[trigger] token_lines@[k]) is Ok
        },
{
    let mut i: usize = 0;
    while i < token_lines.len()
        invariant
            i <= token_lines@.len(),
            forall|k: int| 0 <= k < i ==> spec_check_token_line(#[trigger] token_lines@[k]) is Ok,
        decreases token_lines@.len() - i,
    {
        match check_token_line(&token_lines[i]) {
            Ok(()) => {},
            Err(e) => return Err((e, i + 1)),
        }
        i += 1;
    }
    Ok(())
}


/// Determines whether two condition types are the same
pub fn cond_type_eq(a: CondType, b: CondType) -> (r: bool)
    ensures
        r == (a == b),
{
    match (a, b) {
        (CondType::Pattern, CondType::Pattern) => true,
        (CondType::Match, CondType::Match) => true,
        _ => false,
    }
}

}
