use vstd::prelude::*;
use crate::matcher::{Outcome, SpecOutcome, as_phones, rule_at, spec_as_phones, spec_rule_at};
use crate::phones::{Phone, SpecPhone, phones_view};
use crate::rules::{SoundChangeRule, SpecRule, rule_view};
use crate::tokens::{Direction, ShiftType};

verus! {

/// Errors that occur while a rule is applied
#[derive(Debug, PartialEq, Eq)]
pub enum ApplicationError {
    /// The output, or the left side of a match condition, does not stand for fixed phones
    PatternCannotBeConvertedToPhones,
    /// The rule changed the phones more times than the limit allows
    LimitReached,
}

/// The first index, from `i` on in the rule's direction, at which the rule's input matches
/// (with its conditions holding and no anti-condition matching), with the outcome there;
/// or the index where the scan left the phones, with a failure
pub open spec fn spec_scan(rule: SpecRule, ps: Seq<SpecPhone>, i: int) -> (int, SpecOutcome)
    decreases if rule.kind.dir is Ltr { ps.len() - i } else { i + 1 },
{
    if i < 0 || i >= ps.len() {
        (i, SpecOutcome::Fail)
    } else {
        let o = spec_rule_at(rule, ps, i);
        if o is Fail {
            if rule.kind.dir is Ltr {
                spec_scan(rule, ps, i + 1)
            } else {
                spec_scan(rule, ps, i - 1)
            }
        } else {
            (i, o)
        }
    }
}

/// A match found by a scan lies within the phones
pub proof fn lemma_scan_in_range(rule: SpecRule, ps: Seq<SpecPhone>, i: int)
    ensures
        !(spec_scan(rule, ps, i).1 is Fail) ==> 0 <= spec_scan(rule, ps, i).0 < ps.len(),
    decreases if rule.kind.dir is Ltr { ps.len() - i } else { i + 1 },
{
    if 0 <= i < ps.len() && spec_rule_at(rule, ps, i) is Fail {
        if rule.kind.dir is Ltr {
            lemma_scan_in_range(rule, ps, i + 1);
        } else {
            lemma_scan_in_range(rule, ps, i - 1);
        }
    }
}

/// The phones replaced by a match of `n` phones at index `i`: from `.0` up to `.1`
/// (a match that reads boundaries beyond the ends of the list replaces only phones of the list)
pub open spec fn spec_replaced(dir: Direction, len: int, i: int, n: int) -> (int, int) {
    match dir {
        Direction::Ltr => (i, if i + n <= len { i + n } else { len }),
        Direction::Rtl => (if n <= i + 1 { i + 1 - n } else { 0 }, i + 1),
    }
}

/// The index the scan goes on from after `out` replaced a match of `n` phones at `i`:
/// a change that changes nothing moves one phone on; otherwise a moving shift goes on
/// past the new phones, a staying shift goes on at the new phones
pub open spec fn spec_next(dir: Direction, kind: ShiftType, i: int, n: int, a: int, m: int) -> int {
    if n == 0 && m == 0 {
        match dir {
            Direction::Ltr => i + 1,
            Direction::Rtl => i - 1,
        }
    } else {
        match (dir, kind) {
            (Direction::Ltr, ShiftType::Move) => a + m,
            (Direction::Ltr, ShiftType::Stay) => a,
            (Direction::Rtl, ShiftType::Move) => a - 1,
            (Direction::Rtl, ShiftType::Stay) => if m > 0 { a + m - 1 } else { a - 1 },
        }
    }
}

/// The phones after `out` replaced a match of `n` phones at `i`
pub open spec fn spec_change(rule: SpecRule, ps: Seq<SpecPhone>, i: int, n: int, out: Seq<SpecPhone>) -> Seq<SpecPhone> {
    let (a, b) = spec_replaced(rule.kind.dir, ps.len() as int, i, n);
    ps.subrange(0, a) + out + ps.subrange(b, ps.len() as int)
}

/// Where the scan of a rule starts: the first phone left-to-right, the last one right-to-left
pub open spec fn spec_start(dir: Direction, len: int) -> int {
    match dir {
        Direction::Ltr => 0,
        Direction::Rtl => len - 1,
    }
}

/// The phones after a rule is applied from index `i` on, with at most `budget` more changes:
/// each match found by the scan is replaced by the phones the output stands for, and the
/// scan goes on from the next index
pub open spec fn spec_run(rule: SpecRule, ps: Seq<SpecPhone>, i: int, budget: nat) -> Result<Seq<SpecPhone>, ApplicationError>
    decreases budget,
{
    match spec_scan(rule, ps, i) {
        (_, SpecOutcome::Fail) => Ok(ps),
        (_, SpecOutcome::Error) => Err(ApplicationError::PatternCannotBeConvertedToPhones),
        (j, SpecOutcome::Found(n, ch)) => match spec_as_phones(rule.output, ch) {
            None => Err(ApplicationError::PatternCannotBeConvertedToPhones),
            Some(out) => if budget == 0 {
                Err(ApplicationError::LimitReached)
            } else {
                let (a, _) = spec_replaced(rule.kind.dir, ps.len() as int, j, n as int);
                spec_run(
                    rule,
                    spec_change(rule, ps, j, n as int, out),
                    spec_next(rule.kind.dir, rule.kind.kind, j, n as int, a, out.len() as int),
                    (budget - 1) as nat,
                )
            },
        },
    }
}

/// The phones after a rule is applied to them with at most `max_changes` changes
pub open spec fn spec_apply(rule: SpecRule, ps: Seq<SpecPhone>, max_changes: nat) -> Result<Seq<SpecPhone>, ApplicationError> {
    spec_run(rule, ps, spec_start(rule.kind.dir, ps.len() as int), max_changes)
}

/// A change found by a scan: where it is, how long the match is, and the new phones
pub struct Change<'s> {
    pub index: usize,
    pub len: usize,
    pub output: Vec<Phone<'s>>,
}

/// Scans from index `i` on for the next change the rule makes
pub fn find_change<'s>(rule: &SoundChangeRule<'s>, phones: &[Phone<'s>], i: usize) -> (r: Result<Option<Change<'s>>, ApplicationError>)
    ensures
        match spec_scan(rule_view(*rule), phones_view(phones@), i as int) {
            (_, SpecOutcome::Fail) => r matches Ok(None),
            (_, SpecOutcome::Error) => r == Err::<Option<Change<'s>>, _>(ApplicationError::PatternCannotBeConvertedToPhones),
            (j, SpecOutcome::Found(n, ch)) => match spec_as_phones(rule_view(*rule).output, ch) {
                None => r == Err::<Option<Change<'s>>, _>(ApplicationError::PatternCannotBeConvertedToPhones),
                Some(out) => r matches Ok(Some(c)) && c.index == j && c.len == n && phones_view(c.output@) == out,
            },
        },
{
    let ghost rv = rule_view(*rule);
    let ghost pv = phones_view(phones@);
    let len = phones.len();
    let mut k = i;
    loop
        invariant
            len == phones@.len(),
            rv == rule_view(*rule),
            pv == phones_view(phones@),
            pv.len() == len,
            spec_scan(rv, pv, i as int) == spec_scan(rv, pv, k as int),
        decreases if rv.kind.dir is Ltr { len - k } else { k + 1 },
    {
        if k >= len {
            return Ok(None);
        }
        match rule_at(rule, phones, k) {
            Outcome::Fail => {
                match rule.kind.dir {
                    Direction::Ltr => {
                        k += 1;
                    },
                    Direction::Rtl => {
                        if k == 0 {
                            assert(spec_scan(rv, pv, -1) == (-1int, SpecOutcome::Fail));
                            return Ok(None);
                        }
                        k -= 1;
                    },
                }
            },
            Outcome::Error => {
                return Err(ApplicationError::PatternCannotBeConvertedToPhones);
            },
            Outcome::Found(n, ch) => {
                return match as_phones(rule.output.as_slice(), &ch) {
                    Some(out) => Ok(Some(Change { index: k, len: n, output: out })),
                    None => Err(ApplicationError::PatternCannotBeConvertedToPhones),
                };
            },
        }
    }
}

/// The phones of a list with those from `a` up to `b` replaced by `out`
pub fn splice<'s>(phones: &Vec<Phone<'s>>, a: usize, b: usize, out: &Vec<Phone<'s>>) -> (r: Vec<Phone<'s>>)
    requires
        a <= b <= phones@.len(),
    ensures
        phones_view(r@) == phones_view(phones@).subrange(0, a as int) + phones_view(out@) + phones_view(phones@).subrange(b as int, phones@.len() as int),
{
    let mut r: Vec<Phone<'s>> = Vec::new();
    let mut k: usize = 0;
    while k < a
        invariant
            k <= a <= b <= phones@.len(),
            r@ == phones@.subrange(0, k as int),
        decreases a - k,
    {
        r.push(phones[k]);
        k += 1;
        assert(r@ =~= phones@.subrange(0, k as int));
    }
    let mut k: usize = 0;
    while k < out.len()
        invariant
            k <= out@.len(),
            r@ == phones@.subrange(0, a as int) + out@.subrange(0, k as int),
        decreases out@.len() - k,
    {
        r.push(out[k]);
        k += 1;
        assert(r@ =~= phones@.subrange(0, a as int) + out@.subrange(0, k as int));
    }
    let mut k: usize = b;
    while k < phones.len()
        invariant
            b <= k <= phones@.len(),
            r@ == phones@.subrange(0, a as int) + out@ + phones@.subrange(b as int, k as int),
        decreases phones@.len() - k,
    {
        r.push(phones[k]);
        k += 1;
        assert(r@ =~= phones@.subrange(0, a as int) + out@ + phones@.subrange(b as int, k as int));
    }
    assert(out@.subrange(0, out@.len() as int) =~= out@);
    assert(phones_view(r@) =~= phones_view(phones@).subrange(0, a as int) + phones_view(out@) + phones_view(phones@).subrange(b as int, phones@.len() as int));
    r
}

/// Applies a rule to a list of phones, making at most `max_changes` changes
///
/// When the rule would change the phones more often, the application stops with an error
pub fn apply<'s>(rule: &SoundChangeRule<'s>, phones: &mut Vec<Phone<'s>>, max_changes: usize) -> (r: Result<(), ApplicationError>)
    ensures
        match spec_apply(rule_view(*rule), phones_view(old(phones)@), max_changes as nat) {
            Ok(ps) => r is Ok && phones_view(final(phones)@) == ps,
            Err(e) => r == Err::<(), ApplicationError>(e),
        },
{
    let ghost rv = rule_view(*rule);
    let ghost goal_result = spec_apply(rv, phones_view(phones@), max_changes as nat);
    let dir = rule.kind.dir;
    let mut pos: Option<usize> = match dir {
        Direction::Ltr => Some(0),
        Direction::Rtl => if phones.len() > 0 { Some(phones.len() - 1) } else { None },
    };
    let mut count: usize = 0;
    proof {
        if phones@.len() == 0 && dir is Rtl {
            assert(spec_scan(rv, phones_view(phones@), -1) == (-1int, SpecOutcome::Fail));
        }
    }
    loop
        invariant
            rv == rule_view(*rule),
            dir == rv.kind.dir,
            count <= max_changes,
            goal_result == spec_apply(rule_view(*rule), phones_view(old(phones)@), max_changes as nat),
            goal_result == match pos {
                Some(p) => spec_run(rv, phones_view(phones@), p as int, (max_changes - count) as nat),
                None => Ok::<Seq<SpecPhone>, ApplicationError>(phones_view(phones@)),
            },
        decreases max_changes - count, if pos is Some { 1int } else { 0int },
    {
        let p = match pos {
            None => return Ok(()),
            Some(p) => p,
        };
        let found = find_change(rule, phones.as_slice(), p);
        let change = match found {
            Err(e) => return Err(e),
            Ok(None) => return Ok(()),
            Ok(Some(c)) => c,
        };
        if count == max_changes {
            return Err(ApplicationError::LimitReached);
        }
        let len = phones.len();
        proof {
            lemma_scan_in_range(rv, phones_view(phones@), p as int);
        }
        let j = change.index;
        let n = change.len;
        let m = change.output.len();
        let ghost ps = phones_view(phones@);
        let (a, b) = match dir {
            Direction::Ltr => (j, if n <= len - j { j + n } else { len }),
            Direction::Rtl => (if n <= j + 1 { j + 1 - n } else { 0 }, j + 1),
        };
        let new_phones = splice(phones, a, b, &change.output);
        assert(phones_view(new_phones@).len() == new_phones@.len());
        assert(phones_view(change.output@).len() == m);
        assert(new_phones@.len() == a + m + (len - b));
        let new_len = new_phones.len();
        let next: Option<usize> = if n == 0 && m == 0 {
            match dir {
                Direction::Ltr => Some(j + 1),
                Direction::Rtl => if j >= 1 { Some(j - 1) } else { None },
            }
        } else {
            match (dir, rule.kind.kind) {
                (Direction::Ltr, ShiftType::Move) => Some(a + m),
                (Direction::Ltr, ShiftType::Stay) => Some(a),
                (Direction::Rtl, ShiftType::Move) => if a >= 1 { Some(a - 1) } else { None },
                (Direction::Rtl, ShiftType::Stay) => if m > 0 { Some(a + m - 1) } else if a >= 1 { Some(a - 1) } else { None },
            }
        };
        proof {
            let (sa, sb) = spec_replaced(rv.kind.dir, ps.len() as int, j as int, n as int);
            assert(sa == a && sb == b);
            let nx = spec_next(rv.kind.dir, rv.kind.kind, j as int, n as int, a as int, m as int);
            assert(phones_view(new_phones@) == spec_change(rv, ps, j as int, n as int, phones_view(change.output@)));
            let budget = (max_changes - count) as nat;
            assert(spec_run(rv, ps, p as int, budget) == spec_run(rv, phones_view(new_phones@), nx, (budget - 1) as nat));
            match next {
                Some(q) => assert(nx == q),
                None => {
                    assert(nx < 0);
                    assert(spec_scan(rv, phones_view(new_phones@), nx) == (nx, SpecOutcome::Fail));
                    assert(spec_run(rv, phones_view(new_phones@), nx, (budget - 1) as nat) == Ok::<Seq<SpecPhone>, ApplicationError>(phones_view(new_phones@)));
                },
            }
        }
        *phones = new_phones;
        pos = next;
        count += 1;
    }
}


/// A scan that finds no match anywhere from `i` on ends in a failure
proof fn lemma_scan_without_match(rule: SpecRule, ps: Seq<SpecPhone>, i: int)
    requires
        forall|j: int| 0 <= j < ps.len() ==> #[trigger] spec_rule_at(rule, ps, j) is Fail,
    ensures
        spec_scan(rule, ps, i).1 is Fail,
    decreases if rule.kind.dir is Ltr { ps.len() - i } else { i + 1 },
{
    if 0 <= i < ps.len() {
        assert(spec_rule_at(rule, ps, i) is Fail);
        if rule.kind.dir is Ltr {
            lemma_scan_without_match(rule, ps, i + 1);
        } else {
            lemma_scan_without_match(rule, ps, i - 1);
        }
    }
}

/// A rule whose input matches nowhere (with its conditions) leaves the phones as they are,
/// whatever the limit
pub proof fn lemma_no_match_no_change(rule: SpecRule, ps: Seq<SpecPhone>, max_changes: nat)
    requires
        forall|j: int| 0 <= j < ps.len() ==> #[trigger] spec_rule_at(rule, ps, j) is Fail,
    ensures
        spec_apply(rule, ps, max_changes) == Ok::<Seq<SpecPhone>, ApplicationError>(ps),
{
    lemma_scan_without_match(rule, ps, spec_start(rule.kind.dir, ps.len() as int));
}

/// After a change, the scan goes on from where the shift says: a moving shift (`>>`, `<<`)
/// goes on from the first phone past the new phones in its direction, and a staying shift
/// (`>`, `<`) goes on from the new phone its direction meets first, so that it rescans its
/// own output (the leftmost new phone left-to-right, the rightmost right-to-left); a change
/// that neither read nor wrote phones moves one phone on. Applying the rule from `i` is then
/// the change followed by applying the rule to the new phones from there, with one change less
pub proof fn lemma_scan_resumes(rule: SpecRule, ps: Seq<SpecPhone>, i: int, budget: nat)
    requires
        budget > 0,
        spec_scan(rule, ps, i).1 is Found,
        spec_as_phones(rule.output, spec_scan(rule, ps, i).1->Found_1) is Some,
    ensures
        ({
            let j = spec_scan(rule, ps, i).0;
            let n = spec_scan(rule, ps, i).1->Found_0 as int;
            let out = spec_as_phones(rule.output, spec_scan(rule, ps, i).1->Found_1)->Some_0;
            let m = out.len() as int;
            let a = spec_replaced(rule.kind.dir, ps.len() as int, j, n).0;
            let b = spec_replaced(rule.kind.dir, ps.len() as int, j, n).1;
            let after = ps.subrange(0, a) + out + ps.subrange(b, ps.len() as int);
            let run = spec_run(rule, ps, i, budget);
            &&& n == 0 && m == 0 && rule.kind.dir is Ltr ==> run == spec_run(rule, after, j + 1, (budget - 1) as nat)
            &&& n == 0 && m == 0 && rule.kind.dir is Rtl ==> run == spec_run(rule, after, j - 1, (budget - 1) as nat)
            &&& !(n == 0 && m == 0) && rule.kind.kind is Move && rule.kind.dir is Ltr
                ==> run == spec_run(rule, after, a + m, (budget - 1) as nat)
            &&& !(n == 0 && m == 0) && rule.kind.kind is Move && rule.kind.dir is Rtl
                ==> run == spec_run(rule, after, a - 1, (budget - 1) as nat)
            &&& m > 0 && rule.kind.kind is Stay ==> forall|q: int| #![trigger spec_run(rule, after, q, (budget - 1) as nat)]
                a <= q < a + m && q == (if rule.kind.dir is Ltr { a } else { a + m - 1 })
                    ==> run == spec_run(rule, after, q, (budget - 1) as nat)
            &&& n > 0 && m == 0 && rule.kind.kind is Stay && rule.kind.dir is Ltr ==> run == spec_run(rule, after, a, (budget - 1) as nat)
            &&& n > 0 && m == 0 && rule.kind.kind is Stay && rule.kind.dir is Rtl ==> run == spec_run(rule, after, a - 1, (budget - 1) as nat)
        }),
{
}

/// Applying a rule with a staying shift reapplies it to its own output: once a change has
/// written at least one phone, applying the rule comes to applying it from the new phone
/// the scan meets first (the rightmost one right-to-left, the leftmost one left-to-right)
pub proof fn lemma_staying_shift_rescans_output(rule: SpecRule, ps: Seq<SpecPhone>, i: int, budget: nat)
    requires
        budget > 0,
        rule.kind.kind is Stay,
        spec_scan(rule, ps, i).1 is Found,
        spec_as_phones(rule.output, spec_scan(rule, ps, i).1->Found_1) is Some,
        spec_as_phones(rule.output, spec_scan(rule, ps, i).1->Found_1)->Some_0.len() > 0,
    ensures
        ({
            let j = spec_scan(rule, ps, i).0;
            let n = spec_scan(rule, ps, i).1->Found_0 as int;
            let out = spec_as_phones(rule.output, spec_scan(rule, ps, i).1->Found_1)->Some_0;
            let a = spec_replaced(rule.kind.dir, ps.len() as int, j, n).0;
            let b = spec_replaced(rule.kind.dir, ps.len() as int, j, n).1;
            let after = ps.subrange(0, a) + out + ps.subrange(b, ps.len() as int);
            let first_new = if rule.kind.dir is Ltr { a } else { a + out.len() - 1 };
            &&& a <= first_new < a + out.len()
            &&& after[first_new] == out[first_new - a]
            &&& spec_run(rule, ps, i, budget) == spec_run(rule, after, first_new, (budget - 1) as nat)
        }),
{
    let j = spec_scan(rule, ps, i).0;
    let n = spec_scan(rule, ps, i).1->Found_0 as int;
    let out = spec_as_phones(rule.output, spec_scan(rule, ps, i).1->Found_1)->Some_0;
    let a = spec_replaced(rule.kind.dir, ps.len() as int, j, n).0;
    let b = spec_replaced(rule.kind.dir, ps.len() as int, j, n).1;
    lemma_scan_in_range(rule, ps, i);
    assert(0 <= a <= b <= ps.len());
    let first_new = if rule.kind.dir is Ltr { a } else { a + out.len() - 1 };
    let after = ps.subrange(0, a) + out + ps.subrange(b, ps.len() as int);
    assert(after[first_new] == out[first_new - a]);
    lemma_scan_resumes(rule, ps, i, budget);
}
}
