use vstd::prelude::*;
use vstd::string::{StrSliceExecFns, StringExecFns};
use crate::keywords::{BOUND_CHAR, ESCAPE_CHAR};

verus! {

/// A representation of a phoneme or word boundary
///
/// Stores the phoneme's symbol as a reference to the original text or rules
#[derive(Debug, Clone, Copy, PartialEq, Eq)]
pub enum Phone<'s> {
    /// A symbol representing a phoneme
    Symbol(&'s str),
    /// A word boundary
    Bound,
}

/// The mathematical value of a phone
pub enum SpecPhone {
    Symbol(Seq<char>),
    Bound,
}

impl<'s> View for Phone<'s> {
    type V = SpecPhone;

    open spec fn view(&self) -> SpecPhone {
        match self {
            Phone::Symbol(s) => SpecPhone::Symbol(s@),
            Phone::Bound => SpecPhone::Bound,
        }
    }
}

/// Whether `c` is a Unicode `White_Space` character
pub open spec fn spec_is_whitespace(c: char) -> bool {
    ||| '\u{9}' <= c <= '\u{d}'
    ||| c == ' '
    ||| c == '\u{85}'
    ||| c == '\u{a0}'
    ||| c == '\u{1680}'
    ||| '\u{2000}' <= c <= '\u{200a}'
    ||| c == '\u{2028}'
    ||| c == '\u{2029}'
    ||| c == '\u{202f}'
    ||| c == '\u{205f}'
    ||| c == '\u{3000}'
}

/// Whether every character of `s` is whitespace
pub open spec fn all_whitespace(s: Seq<char>) -> bool {
    forall|i: int| 0 <= i < s.len() ==> spec_is_whitespace(#[trigger] s[i])
}

/// Two phones match when they are equal, or when one is a boundary
/// and the other consists only of whitespace
pub open spec fn spec_phones_match(a: SpecPhone, b: SpecPhone) -> bool {
    match (a, b) {
        (SpecPhone::Bound, SpecPhone::Symbol(s)) => all_whitespace(s),
        (SpecPhone::Symbol(s), SpecPhone::Bound) => all_whitespace(s),
        _ => a == b,
    }
}

/// Whether a phone stands for a word boundary
pub open spec fn spec_is_bound(p: SpecPhone) -> bool {
    spec_phones_match(p, SpecPhone::Bound)
}

/// Determines whether `c` is a whitespace character
pub fn is_whitespace(c: char) -> (r: bool)
    ensures
        r == spec_is_whitespace(c),
{
    ('\u{9}' <= c && c <= '\u{d}') || c == ' ' || c == '\u{85}' || c == '\u{a0}' || c == '\u{1680}'
        || ('\u{2000}' <= c && c <= '\u{200a}') || c == '\u{2028}' || c == '\u{2029}' || c
        == '\u{202f}' || c == '\u{205f}' || c == '\u{3000}'
}

/// Determines whether every character of `s` is whitespace
pub fn str_all_whitespace(s: &str) -> (r: bool)
    ensures
        r == all_whitespace(s@),
{
    let n = s.unicode_len();
    let mut i: usize = 0;
    while i < n
        invariant
            n == s@.len(),
            i <= n,
            forall|j: int| 0 <= j < i ==> spec_is_whitespace(#[trigger] s@[j]),
        decreases n - i,
    {
        if !is_whitespace(s.get_char(i)) {
            return false;
        }
        i += 1;
    }
    true
}

/// Determines whether two phones are equal
pub fn phone_eq(a: &Phone, b: &Phone) -> (r: bool)
    ensures
        r == (a@ == b@),
{
    match (a, b) {
        (Phone::Bound, Phone::Bound) => true,
        (Phone::Symbol(x), Phone::Symbol(y)) => crate::strings::str_eq(x, y),
        _ => false,
    }
}

impl<'s> Phone<'s> {
    /// Returns the phone's symbol.
    /// If the phone is a boundary, `" "` (space) is returned
    pub fn as_str(&self) -> (r: &'s str)
        ensures
            r@ == spec_phone_str(self@),
    {
        match self {
            Phone::Symbol(symbol) => symbol,
            Phone::Bound => {
                let s = " ";
                proof {
                    reveal_strlit(" ");
                }
                assert(s@ =~= seq![' ']);
                s
            },
        }
    }

    /// Returns the phone's symbol.
    /// If the phone is a boundary, the boundary character is returned as a string
    pub fn as_symbol(&self) -> (r: &'s str)
        ensures
            r@ == match self@ {
                SpecPhone::Symbol(s) => s,
                SpecPhone::Bound => seq![BOUND_CHAR],
            },
    {
        match self {
            Phone::Symbol(symbol) => symbol,
            Phone::Bound => {
                let s = "#";
                proof {
                    reveal_strlit("#");
                }
                assert(s@ =~= seq![BOUND_CHAR]);
                s
            },
        }
    }

    /// Determines if a phone matches a bound
    pub fn is_bound(&self) -> (r: bool)
        ensures
            r == spec_is_bound(self@),
    {
        self.matches(&Phone::Bound)
    }

    /// Determines if two phones match
    ///
    /// Equal phones match, and bounds and all-whitespace phones match
    pub fn matches(&self, other: &Phone) -> (r: bool)
        ensures
            r == spec_phones_match(self@, other@),
    {
        match (self, other) {
            (Phone::Bound, Phone::Symbol(symbol)) => str_all_whitespace(symbol),
            (Phone::Symbol(symbol), Phone::Bound) => str_all_whitespace(symbol),
            _ => phone_eq(self, other),
        }
    }
}

/// The text a phone is written as: its symbol, or a space for a boundary
pub open spec fn spec_phone_str(p: SpecPhone) -> Seq<char> {
    match p {
        SpecPhone::Symbol(s) => s,
        SpecPhone::Bound => seq![' '],
    }
}


/// The mathematical values of a list of phones
pub open spec fn phones_view(v: Seq<Phone>) -> Seq<SpecPhone> {
    v.map_values(|p: Phone| p@)
}

/// Whether the last phone of a list stands for a boundary
pub open spec fn ends_with_bound(ps: Seq<SpecPhone>) -> bool {
    ps.len() > 0 && spec_is_bound(ps.last())
}

/// Adds a boundary unless the list already ends with one
pub open spec fn push_bound(ps: Seq<SpecPhone>) -> Seq<SpecPhone> {
    if ends_with_bound(ps) {
        ps
    } else {
        ps.push(SpecPhone::Bound)
    }
}

/// Reads one character of an input text: the phones built so far and
/// the pending escape characters are updated
pub open spec fn phone_list_step(ps: Seq<SpecPhone>, pending: Seq<char>, c: char) -> (Seq<SpecPhone>, Seq<char>) {
    if c == ESCAPE_CHAR {
        (ps, pending.push(c))
    } else if c == '\n' {
        (push_bound(ps).push(SpecPhone::Symbol(seq!['\n'])).push(SpecPhone::Bound), Seq::empty())
    } else if spec_is_whitespace(c) {
        (push_bound(ps), Seq::empty())
    } else {
        (ps.push(SpecPhone::Symbol(pending.push(c))), Seq::empty())
    }
}

/// The phones and pending escapes after reading the first `n` characters of `s`
pub open spec fn phone_list_prefix(s: Seq<char>, n: nat) -> (Seq<SpecPhone>, Seq<char>)
    decreases n,
{
    if n == 0 {
        (Seq::empty(), Seq::empty())
    } else {
        let prev = phone_list_prefix(s, (n - 1) as nat);
        phone_list_step(prev.0, prev.1, s[n - 1])
    }
}

/// The phones of a text: each character, with the escape characters before it,
/// is a phone; a run of whitespace is one boundary; a line break is a boundary,
/// the line break itself and a boundary
pub open spec fn spec_build_phone_list(s: Seq<char>) -> Seq<SpecPhone> {
    let st = phone_list_prefix(s, s.len());
    if st.1.len() > 0 {
        st.0.push(SpecPhone::Symbol(st.1))
    } else {
        st.0
    }
}

/// Builds a list of phones from an input
/// where each phone is a character or escaped character
/// and reformats whitespace as word boundaries
pub fn build_phone_list(input: &str) -> (phones: Vec<Phone<'_>>)
    ensures
        phones_view(phones@) == spec_build_phone_list(input@),
{
    let n = input.unicode_len();
    let mut phones: Vec<Phone> = Vec::new();
    let mut start: usize = 0;
    let mut i: usize = 0;
    while i < n
        invariant
            n == input@.len(),
            start <= i <= n,
            (phones_view(phones@), input@.subrange(start as int, i as int)) == phone_list_prefix(input@, i as nat),
        decreases n - i,
    {
        let c = input.get_char(i);
        let ghost prev_phones = phones_view(phones@);
        let ghost pending = input@.subrange(start as int, i as int);
        if c == ESCAPE_CHAR {
            i += 1;
            assert(input@.subrange(start as int, i as int) =~= pending.push(c));
        } else if c == '\n' || is_whitespace(c) {
            let last_bound = phones.len() > 0 && phones[phones.len() - 1].is_bound();
            assert(last_bound == ends_with_bound(prev_phones));
            if !last_bound {
                phones.push(Phone::Bound);
            }
            if c == '\n' {
                let nl = input.substring_char(i, i + 1);
                assert(nl@ =~= seq!['\n']);
                phones.push(Phone::Symbol(nl));
                phones.push(Phone::Bound);
            }
            i += 1;
            start = i;
            assert(phones_view(phones@) =~= phone_list_step(prev_phones, pending, c).0);
            assert(input@.subrange(start as int, i as int) =~= Seq::<char>::empty());
        } else {
            let sym = input.substring_char(start, i + 1);
            phones.push(Phone::Symbol(sym));
            i += 1;
            start = i;
            assert(sym@ =~= pending.push(c));
            assert(phones_view(phones@) =~= phone_list_step(prev_phones, pending, c).0);
            assert(input@.subrange(start as int, i as int) =~= Seq::<char>::empty());
        }
    }
    if start < n {
        let rest = input.substring_char(start, n);
        phones.push(Phone::Symbol(rest));
        assert(phones_view(phones@) =~= spec_build_phone_list(input@));
    } else {
        assert(phones_view(phones@) =~= spec_build_phone_list(input@));
    }
    phones
}


/// The text of a list of phones: the texts of the phones one after another
pub open spec fn phones_text(ps: Seq<SpecPhone>) -> Seq<char>
    decreases ps.len(),
{
    if ps.len() == 0 {
        Seq::empty()
    } else {
        phones_text(ps.drop_last()) + spec_phone_str(ps.last())
    }
}

/// A text with its escapes removed: an escape character is dropped and
/// the character after it is kept as it is
pub open spec fn unescape(s: Seq<char>) -> Seq<char>
    decreases s.len(),
{
    if s.len() == 0 {
        Seq::empty()
    } else if s[0] == ESCAPE_CHAR {
        if s.len() >= 2 {
            seq![s[1]] + unescape(s.skip(2))
        } else {
            Seq::empty()
        }
    } else {
        seq![s[0]] + unescape(s.skip(1))
    }
}

/// Whether the only whitespace of a text is single spaces, none of them after an escape
pub open spec fn plain_spacing(t: Seq<char>) -> bool {
    forall|j: int|
        0 <= j < t.len() && spec_is_whitespace(#[trigger] t[j]) ==> t[j] == ' ' && (j == 0 || (t[j - 1] != ' ' && t[j - 1] != ESCAPE_CHAR))
}

proof fn lemma_phones_text_push(ps: Seq<SpecPhone>, p: SpecPhone)
    ensures
        phones_text(ps.push(p)) == phones_text(ps) + spec_phone_str(p),
{
    assert(ps.push(p).drop_last() =~= ps);
}

proof fn lemma_phone_list_prefix_text(t: Seq<char>, n: nat)
    requires
        plain_spacing(t),
        n <= t.len(),
    ensures
        phones_text(phone_list_prefix(t, n).0) + phone_list_prefix(t, n).1 == t.subrange(0, n as int),
        n > 0 && t[n - 1] != ESCAPE_CHAR && !spec_is_whitespace(t[n - 1]) ==> {
            &&& phone_list_prefix(t, n).1.len() == 0
            &&& phone_list_prefix(t, n).0.len() > 0
            &&& !spec_is_bound(phone_list_prefix(t, n).0.last())
        },
        forall|i: int| 0 <= i < phone_list_prefix(t, n).1.len() ==> phone_list_prefix(t, n).1[i] == ESCAPE_CHAR,
    decreases n,
{
    if n > 0 {
        let m = (n - 1) as nat;
        lemma_phone_list_prefix_text(t, m);
        let (ps, pend) = phone_list_prefix(t, m);
        let c = t[m as int];
        assert(t.subrange(0, n as int) =~= t.subrange(0, m as int).push(c));
        if c == ESCAPE_CHAR {
            assert(phones_text(ps) + pend.push(c) =~= (phones_text(ps) + pend).push(c));
        } else if c == '\n' || spec_is_whitespace(c) {
            assert(spec_is_whitespace(t[m as int]));
            assert(c == ' ');
            if m > 0 {
                assert(t[m - 1] != ' ' && t[m - 1] != ESCAPE_CHAR);
                assert(!spec_is_whitespace(t[m - 1]));
            }
            assert(!ends_with_bound(ps));
            lemma_phones_text_push(ps, SpecPhone::Bound);
            assert(pend.len() == 0);
            assert(phones_text(ps.push(SpecPhone::Bound)) + Seq::<char>::empty() =~= (phones_text(ps) + pend).push(c));
        } else {
            let sym = pend.push(c);
            lemma_phones_text_push(ps, SpecPhone::Symbol(sym));
            assert(phones_text(ps.push(SpecPhone::Symbol(sym))) + Seq::<char>::empty() =~= (phones_text(ps) + pend).push(c));
            assert(!all_whitespace(sym)) by {
                assert(!spec_is_whitespace(sym[sym.len() - 1]));
            }
        }
    }
}

/// Phones built from a text whose only whitespace is single spaces (none after an escape)
/// are written as that text: building phones loses nothing of such a text
pub proof fn lemma_phones_text_roundtrip(t: Seq<char>)
    requires
        plain_spacing(t),
    ensures
        phones_text(spec_build_phone_list(t)) == t,
{
    lemma_phone_list_prefix_text(t, t.len());
    let (ps, pend) = phone_list_prefix(t, t.len());
    assert(t.subrange(0, t.len() as int) =~= t);
    if pend.len() > 0 {
        lemma_phones_text_push(ps, SpecPhone::Symbol(pend));
    } else {
        assert(phones_text(ps) + pend =~= phones_text(ps));
    }
}

/// Converts a list of phones to a string,
/// writing word boundaries as spaces and removing escapes
pub fn phone_list_to_string(phone_list: &[Phone]) -> (r: String)
    ensures
        r@ == unescape(phones_text(phones_view(phone_list@))),
{
    let mut joined = String::new();
    let mut k: usize = 0;
    while k < phone_list.len()
        invariant
            k <= phone_list@.len(),
            joined@ == phones_text(phones_view(phone_list@.subrange(0, k as int))),
        decreases phone_list@.len() - k,
    {
        let piece = phone_list[k].as_str();
        joined.append(piece);
        k += 1;
        assert(phones_view(phone_list@.subrange(0, k as int)).drop_last() =~= phones_view(phone_list@.subrange(0, (k - 1) as int)));
    }
    assert(phone_list@.subrange(0, k as int) =~= phone_list@);
    unescape_str(joined.as_str())
}

/// Removes the escapes of a text
pub fn unescape_str(s: &str) -> (r: String)
    ensures
        r@ == unescape(s@),
{
    let n = s.unicode_len();
    let mut out = String::new();
    let mut i: usize = 0;
    assert(s@.skip(0) =~= s@);
    assert(out@ + unescape(s@.skip(0)) =~= unescape(s@));
    while i < n
        invariant
            n == s@.len(),
            i <= n,
            out@ + unescape(s@.skip(i as int)) == unescape(s@),
        decreases n - i,
    {
        let ghost rest = s@.skip(i as int);
        let c = s.get_char(i);
        if c == ESCAPE_CHAR {
            if i + 1 < n {
                let piece = s.substring_char(i + 1, i + 2);
                out.append(piece);
                assert(rest.skip(2) =~= s@.skip(i + 2));
                assert(piece@ =~= seq![rest[1]]);
                i += 2;
            } else {
                assert(s@.skip(n as int) =~= Seq::<char>::empty());
                i += 1;
            }
        } else {
            let piece = s.substring_char(i, i + 1);
            out.append(piece);
            assert(rest.skip(1) =~= s@.skip(i + 1));
            assert(piece@ =~= seq![rest[0]]);
            i += 1;
        }
        assert(out@ + unescape(s@.skip(i as int)) =~= unescape(s@));
    }
    assert(s@.skip(n as int) =~= Seq::<char>::empty());
    assert(out@ =~= out@ + unescape(s@.skip(n as int)));
    out
}

}
