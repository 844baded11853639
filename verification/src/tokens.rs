use vstd::prelude::*;
use crate::keywords::{OPTIONAL_START_CHAR, OPTIONAL_END_CHAR, SELECTION_START_CHAR, SELECTION_END_CHAR};

verus! {

/// The direction a sound change applies to the word in
#[derive(Debug, Clone, Copy, PartialEq, Eq)]
pub enum Direction {
    /// Left-to-Right
    Ltr,
    /// Right-to-Left
    Rtl,
}

/// The type of shift
#[derive(Debug, Clone, Copy, PartialEq, Eq)]
pub enum ShiftType {
    /// The next phones analyzed are before/after the newly inserted phones
    Move,
    /// The next phones analyzed are the newly inserted phones
    Stay,
}

/// How a change is applied: its direction and what happens after a change
#[derive(Debug, Clone, Copy, PartialEq, Eq)]
pub struct Shift {
    pub dir: Direction,
    pub kind: ShiftType,
}

/// `n` moved by `dist` in the direction `dir`, wrapping around the range of `usize`
pub open spec fn spec_change_by(dir: Direction, n: usize, dist: usize) -> usize {
    match dir {
        Direction::Ltr => if n + dist <= usize::MAX { (n + dist) as usize } else { (n + dist - (usize::MAX + 1)) as usize },
        Direction::Rtl => if dist <= n { (n - dist) as usize } else { (n - dist + (usize::MAX + 1)) as usize },
    }
}

impl Direction {
    /// Changes n by dist according to the direction (wraps instead of overflowing)
    pub fn change_by(self, n: usize, dist: usize) -> (r: usize)
        ensures
            r == spec_change_by(self, n, dist),
    {
        match self {
            Direction::Ltr => if dist <= usize::MAX - n { n + dist } else { dist - (usize::MAX - n) - 1 },
            Direction::Rtl => if dist <= n { n - dist } else { usize::MAX - (dist - n) + 1 },
        }
    }

    /// Changes n by 1 according to the direction (wraps instead of overflowing)
    pub fn change_by_one(self, n: usize) -> (r: usize)
        ensures
            r == spec_change_by(self, n, 1),
    {
        self.change_by(n, 1)
    }

    /// Returns the first index required for traversing a list according to direction
    /// (LTR returns 0, RTL returns list length - 1, wrapping for an empty list)
    pub fn start_index<T>(self, list: &[T]) -> (r: usize)
        ensures
            r == match self {
                Direction::Ltr => 0usize,
                Direction::Rtl => spec_change_by(Direction::Rtl, list@.len() as usize, 1),
            },
    {
        match self {
            Direction::Ltr => 0,
            Direction::Rtl => Direction::Rtl.change_by_one(list.len()),
        }
    }
}

/// Moving by a distance one way and then the other way comes back to where it started
pub proof fn lemma_change_by_inverse(n: usize, dist: usize)
    ensures
        spec_change_by(Direction::Rtl, spec_change_by(Direction::Ltr, n, dist), dist) == n,
        spec_change_by(Direction::Ltr, spec_change_by(Direction::Rtl, n, dist), dist) == n,
{
}

/// The type of a scope or scope bound
#[derive(Debug, Clone, Copy, PartialEq, Eq)]
pub enum ScopeType {
    /// A scope that holds one item and either adds it to the phone list or doesn't
    Optional,
    /// A scope that adds one of its items to the phone list
    Selection,
}

impl ScopeType {
    /// The character that opens a scope of this type
    pub fn fmt_start(self) -> (c: char)
        ensures
            c == (match self {
                ScopeType::Optional => OPTIONAL_START_CHAR,
                ScopeType::Selection => SELECTION_START_CHAR,
            }),
    {
        match self {
            ScopeType::Optional => OPTIONAL_START_CHAR,
            ScopeType::Selection => SELECTION_START_CHAR,
        }
    }

    /// The character that closes a scope of this type
    pub fn fmt_end(self) -> (c: char)
        ensures
            c == (match self {
                ScopeType::Optional => OPTIONAL_END_CHAR,
                ScopeType::Selection => SELECTION_END_CHAR,
            }),
    {
        match self {
            ScopeType::Optional => OPTIONAL_END_CHAR,
            ScopeType::Selection => SELECTION_END_CHAR,
        }
    }
}

/// How a sub-condition joins the condition before it
#[derive(Debug, Clone, Copy, PartialEq, Eq)]
pub enum AndType {
    /// Both sub-conditions must match
    And,
    /// The earlier sub-condition must match and the later must not
    AndNot,
}

/// The focus of a condition
#[derive(Debug, Clone, Copy, PartialEq, Eq)]
pub enum CondType {
    /// The input of the rule in a pattern based condition (`_`)
    Pattern,
    /// A match between two groups of tokens (`=`)
    Match,
}

/// What a scope label stands for
#[derive(Debug, Clone, Copy, PartialEq, Eq)]
pub enum LabelType {
    Scope(ScopeType),
    Any,
}

/// A scope label
#[derive(Debug, PartialEq, Eq)]
pub enum ScopeId<'s> {
    /// Named label
    Name(&'s str),
    /// The number that a scope is of its type in an input or output,
    /// along with the scope type and the id of the parent scope
    /// (allows for scope agreement inference)
    IOUnlabeled {
        id_num: usize,
        label_type: LabelType,
        parent: Option<Box<ScopeId<'s>>>,
    },
}

/// The mathematical value of a scope label
pub enum SpecScopeId {
    Name(Seq<char>),
    IOUnlabeled { id_num: nat, label_type: LabelType, parent: Option<Box<SpecScopeId>> },
}

impl<'s> ScopeId<'s> {
    pub open spec fn spec_view(&self) -> SpecScopeId
        decreases self,
    {
        match self {
            ScopeId::Name(name) => SpecScopeId::Name(name@),
            ScopeId::IOUnlabeled { id_num, label_type, parent } => SpecScopeId::IOUnlabeled {
                id_num: *id_num as nat,
                label_type: *label_type,
                parent: match parent {
                    Some(p) => Some(Box::new(p.spec_view())),
                    None => None,
                },
            },
        }
    }
}

impl<'s> View for ScopeId<'s> {
    type V = SpecScopeId;

    open spec fn view(&self) -> SpecScopeId {
        self.spec_view()
    }
}

impl<'s> Clone for ScopeId<'s> {
    fn clone(&self) -> (r: Self)
        ensures
            r@ == self@,
        decreases self,
    {
        match self {
            ScopeId::Name(name) => ScopeId::Name(name),
            ScopeId::IOUnlabeled { id_num, label_type, parent } => ScopeId::IOUnlabeled {
                id_num: *id_num,
                label_type: *label_type,
                parent: match parent {
                    Some(p) => Some(Box::new((**p).clone())),
                    None => None,
                },
            },
        }
    }
}

/// Determines whether two labels are the same label
pub fn scope_id_eq(a: &ScopeId, b: &ScopeId) -> (r: bool)
    ensures
        r == (a@ == b@),
    decreases a,
{
    match (a, b) {
        (ScopeId::Name(x), ScopeId::Name(y)) => crate::strings::str_eq(x, y),
        (
            ScopeId::IOUnlabeled { id_num: n1, label_type: l1, parent: p1 },
            ScopeId::IOUnlabeled { id_num: n2, label_type: l2, parent: p2 },
        ) => {
            if *n1 != *n2 || !label_type_eq(*l1, *l2) {
                return false;
            }
            match (p1, p2) {
                (None, None) => true,
                (Some(x), Some(y)) => {
                    let r = scope_id_eq(x, y);
                    proof {
                        if !r {
                            assert(a@->parent != b@->parent);
                        }
                    }
                    r
                },
                _ => false,
            }
        },
        _ => false,
    }
}

/// Determines whether two label types are the same
pub fn label_type_eq(a: LabelType, b: LabelType) -> (r: bool)
    ensures
        r == (a == b),
{
    match (a, b) {
        (LabelType::Any, LabelType::Any) => true,
        (LabelType::Scope(ScopeType::Optional), LabelType::Scope(ScopeType::Optional)) => true,
        (LabelType::Scope(ScopeType::Selection), LabelType::Scope(ScopeType::Selection)) => true,
        _ => false,
    }
}

}
