use vstd::prelude::*;
use vstd::string::StrSliceExecFns;
use crate::ir::{IrLine, IrToken, RuntimeCmd, SpecIrLine, SpecIrToken, ir_line_view, ir_view};
use crate::lexer::{CompileTimeData, IrError, SpecCompileTimeData, SpecIrError, ir_error_view, lex, spec_lex};
use crate::phones::{is_whitespace, spec_is_whitespace};
use crate::token_checker::{check_tokens, spec_check_token_line};

verus! {

/// The start of a comment line
pub open spec fn comment_start() -> Seq<char> {
    seq!['#', '#']
}

/// The keyword that starts a definition line
pub open spec fn define_keyword() -> Seq<char> {
    seq!['D', 'E', 'F', 'I', 'N', 'E']
}

/// The keyword that starts a print line
pub open spec fn print_keyword() -> Seq<char> {
    seq!['P', 'R', 'I', 'N', 'T']
}

/// The keyword that starts a line asking for phones
pub open spec fn get_keyword() -> Seq<char> {
    seq!['G', 'E', 'T']
}

/// The keyword that starts a line asking for code
pub open spec fn get_as_code_keyword() -> Seq<char> {
    seq!['G', 'E', 'T', '_', 'A', 'S', '_', 'C', 'O', 'D', 'E']
}

/// Whether `s` starts with `kw`
pub open spec fn spec_has_prefix(s: Seq<char>, kw: Seq<char>) -> bool {
    kw.len() <= s.len() && s.subrange(0, kw.len() as int) == kw
}

/// Whether `s` starts with the word `kw`: `kw` followed by whitespace or by nothing
pub open spec fn spec_has_keyword(s: Seq<char>, kw: Seq<char>) -> bool {
    spec_has_prefix(s, kw) && (s.len() == kw.len() || spec_is_whitespace(s[kw.len() as int]))
}

/// The first position at or after `p` that does not hold whitespace
pub open spec fn skip_ws(s: Seq<char>, p: int) -> int
    decreases s.len() - p,
{
    if p < s.len() && spec_is_whitespace(s[p]) {
        skip_ws(s, p + 1)
    } else {
        p
    }
}

/// The first position at or after `p` that holds whitespace, or the end
pub open spec fn word_end(s: Seq<char>, p: int) -> int
    decreases s.len() - p,
{
    if p < s.len() && !spec_is_whitespace(s[p]) {
        word_end(s, p + 1)
    } else {
        p
    }
}

proof fn lemma_skip_ws_bounds(s: Seq<char>, p: int)
    requires
        0 <= p <= s.len(),
    ensures
        p <= skip_ws(s, p) <= s.len(),
    decreases s.len() - p,
{
    if p < s.len() && spec_is_whitespace(s[p]) {
        lemma_skip_ws_bounds(s, p + 1);
    }
}

proof fn lemma_word_end_bounds(s: Seq<char>, p: int)
    requires
        0 <= p <= s.len(),
    ensures
        p <= word_end(s, p) <= s.len(),
    decreases s.len() - p,
{
    if p < s.len() && !spec_is_whitespace(s[p]) {
        lemma_word_end_bounds(s, p + 1);
    }
}

/// A line of source code, classified and tokenized with the definitions and variables
/// of `data`, together with the data after the line: a line that starts with `##`
/// is a comment; `DEFINE name content` gives `name` the tokens of `content`;
/// `PRINT`, `GET` and `GET_AS_CODE` lines are commands with the rest of the line
/// (leading whitespace removed) as their arguments; any other line is a list of tokens
pub open spec fn spec_tokenize_line(line: Seq<char>, data: SpecCompileTimeData) -> Result<(SpecIrLine, SpecCompileTimeData), SpecIrError> {
    if spec_has_prefix(line, comment_start()) {
        Ok((SpecIrLine::Empty, data))
    } else if spec_has_keyword(line, define_keyword()) {
        let ns = skip_ws(line, define_keyword().len() as int);
        let ne = word_end(line, ns);
        if ns == ne {
            Err(SpecIrError::EmptyDefinition)
        } else {
            match spec_lex(line, ne, data.definitions, data.variables) {
                Ok(ts) => Ok((
                    SpecIrLine::Empty,
                    SpecCompileTimeData {
                        definitions: data.definitions.push((line.subrange(ns, ne), ts)),
                        variables: data.variables,
                    },
                )),
                Err(e) => Err(e),
            }
        }
    } else if spec_has_keyword(line, print_keyword()) {
        Ok((SpecIrLine::Cmd(RuntimeCmd::Print, line.subrange(skip_ws(line, print_keyword().len() as int), line.len() as int)), data))
    } else if spec_has_keyword(line, get_keyword()) {
        Ok((SpecIrLine::Cmd(RuntimeCmd::Get, line.subrange(skip_ws(line, get_keyword().len() as int), line.len() as int)), data))
    } else if spec_has_keyword(line, get_as_code_keyword()) {
        Ok((SpecIrLine::Cmd(RuntimeCmd::GetAsCode, line.subrange(skip_ws(line, get_as_code_keyword().len() as int), line.len() as int)), data))
    } else {
        match spec_lex(line, 0, data.definitions, data.variables) {
            Ok(ts) => if ts.len() == 0 {
                Ok((SpecIrLine::Empty, data))
            } else {
                Ok((SpecIrLine::Ir(ts), data))
            },
            Err(e) => Err(e),
        }
    }
}

/// Determines whether `s` starts with `kw`
fn has_prefix(s: &str, kw: &str) -> (r: bool)
    ensures
        r == spec_has_prefix(s@, kw@),
{
    let n = s.unicode_len();
    let m = kw.unicode_len();
    if m > n {
        return false;
    }
    let mut i: usize = 0;
    while i < m
        invariant
            n == s@.len(),
            m == kw@.len(),
            m <= n,
            i <= m,
            forall|j: int| 0 <= j < i ==> s@[j] == kw@[j],
        decreases m - i,
    {
        if s.get_char(i) != kw.get_char(i) {
            assert(s@.subrange(0, m as int)[i as int] != kw@[i as int]);
            return false;
        }
        i += 1;
    }
    assert(s@.subrange(0, m as int) =~= kw@);
    true
}

/// Determines whether `s` starts with the word `kw`
fn has_keyword(s: &str, kw: &str) -> (r: bool)
    ensures
        r == spec_has_keyword(s@, kw@),
{
    if !has_prefix(s, kw) {
        return false;
    }
    let m = kw.unicode_len();
    m == s.unicode_len() || is_whitespace(s.get_char(m))
}

/// Finds the first position at or after `p` that does not hold whitespace
fn find_skip_ws(s: &str, p: usize) -> (r: usize)
    requires
        p <= s@.len(),
    ensures
        r == skip_ws(s@, p as int),
        p <= r <= s@.len(),
{
    proof {
        lemma_skip_ws_bounds(s@, p as int);
    }
    let n = s.unicode_len();
    let mut q = p;
    while q < n && is_whitespace(s.get_char(q))
        invariant
            n == s@.len(),
            p <= q <= n,
            skip_ws(s@, q as int) == skip_ws(s@, p as int),
        decreases n - q,
    {
        q += 1;
    }
    q
}

/// Finds the first position at or after `p` that holds whitespace, or the end
fn find_word_end(s: &str, p: usize) -> (r: usize)
    requires
        p <= s@.len(),
    ensures
        r == word_end(s@, p as int),
        p <= r <= s@.len(),
{
    proof {
        lemma_word_end_bounds(s@, p as int);
    }
    let n = s.unicode_len();
    let mut q = p;
    while q < n && !is_whitespace(s.get_char(q))
        invariant
            n == s@.len(),
            p <= q <= n,
            word_end(s@, q as int) == word_end(s@, p as int),
        decreases n - q,
    {
        q += 1;
    }
    q
}

/// Converts a line of source code to a line of tokens or a command,
/// storing the definitions it makes in `data`
pub fn tokenize_line<'s>(line: &'s str, data: &mut CompileTimeData<'s>) -> (r: Result<IrLine<'s>, IrError<'s>>)
    ensures
        match r {
            Ok(l) => spec_tokenize_line(line@, old(data)@) == Ok::<_, SpecIrError>((ir_line_view(l), final(data)@)),
            Err(e) => spec_tokenize_line(line@, old(data)@) == Err::<(SpecIrLine, SpecCompileTimeData), _>(ir_error_view(e))
                && final(data)@ == old(data)@,
        },
{
    proof {
        reveal_strlit("##");
        reveal_strlit("DEFINE");
        reveal_strlit("PRINT");
        reveal_strlit("GET");
        reveal_strlit("GET_AS_CODE");
        assert("##"@ =~= comment_start());
        assert("DEFINE"@ =~= define_keyword());
        assert("PRINT"@ =~= print_keyword());
        assert("GET"@ =~= get_keyword());
        assert("GET_AS_CODE"@ =~= get_as_code_keyword());
    }
    let n = line.unicode_len();
    if has_prefix(line, "##") {
        Ok(IrLine::Empty)
    } else if has_keyword(line, "DEFINE") {
        let ns = find_skip_ws(line, 6);
        let ne = find_word_end(line, ns);
        if ns == ne {
            return Err(IrError::EmptyDefinition);
        }
        let name = line.substring_char(ns, ne);
        let tokens = lex(line, ne, data)?;
        data.set_definition(name, tokens);
        Ok(IrLine::Empty)
    } else if has_keyword(line, "PRINT") {
        let start = find_skip_ws(line, 5);
        Ok(IrLine::Cmd(RuntimeCmd::Print, line.substring_char(start, n)))
    } else if has_keyword(line, "GET") {
        let start = find_skip_ws(line, 3);
        Ok(IrLine::Cmd(RuntimeCmd::Get, line.substring_char(start, n)))
    } else if has_keyword(line, "GET_AS_CODE") {
        let start = find_skip_ws(line, 11);
        Ok(IrLine::Cmd(RuntimeCmd::GetAsCode, line.substring_char(start, n)))
    } else {
        let tokens = lex(line, 0, data)?;
        if tokens.len() == 0 {
            assert(ir_view(tokens@).len() == 0);
            Ok(IrLine::Empty)
        } else {
            Ok(IrLine::Ir(tokens))
        }
    }
}


/// The end of the line that starts at `p`: the position of the next line break, or the end
pub open spec fn line_end(s: Seq<char>, p: int) -> int
    decreases s.len() - p,
{
    if p < s.len() && s[p] != '\n' {
        line_end(s, p + 1)
    } else {
        p
    }
}

pub proof fn lemma_line_end_bounds(s: Seq<char>, p: int)
    requires
        0 <= p <= s.len(),
    ensures
        p <= line_end(s, p) <= s.len(),
        line_end(s, p) < s.len() ==> s[line_end(s, p)] == '\n',
    decreases s.len() - p,
{
    if p < s.len() && s[p] != '\n' {
        lemma_line_end_bounds(s, p + 1);
    }
}

/// A line without the carriage return at its end, if it has one
pub open spec fn strip_cr(l: Seq<char>) -> Seq<char> {
    if l.len() > 0 && l.last() == '\r' {
        l.drop_last()
    } else {
        l
    }
}

/// The lines of `s` from position `p`: the text between line breaks, each without
/// a carriage return at its end; a line break at the very end starts no new line
pub open spec fn spec_lines_from(s: Seq<char>, p: int) -> Seq<Seq<char>>
    decreases s.len() - p,
{
    if p < 0 || p >= s.len() {
        Seq::empty()
    } else {
        let e = line_end(s, p);
        proof {
            lemma_line_end_bounds(s, p);
        }
        let l = strip_cr(s.subrange(p, e));
        if e >= s.len() {
            seq![l]
        } else {
            seq![l] + spec_lines_from(s, e + 1)
        }
    }
}

/// The lines of `s`
pub open spec fn spec_lines(s: Seq<char>) -> Seq<Seq<char>> {
    spec_lines_from(s, 0)
}

/// The mathematical values of a list of texts
pub open spec fn strs_view<'s>(v: Seq<&'s str>) -> Seq<Seq<char>> {
    v.map_values(|l: &'s str| l@)
}

/// Splits a text into its lines
pub fn split_lines<'s>(s: &'s str) -> (r: Vec<&'s str>)
    ensures
        strs_view(r@) == spec_lines(s@),
{
    let n = s.unicode_len();
    let mut out: Vec<&'s str> = Vec::new();
    let mut p: usize = 0;
    assert(strs_view(out@) + spec_lines_from(s@, 0) =~= spec_lines(s@));
    while p < n
        invariant
            n == s@.len(),
            p <= n,
            strs_view(out@) + spec_lines_from(s@, p as int) == spec_lines(s@),
        decreases n - p,
    {
        let mut e = p;
        proof {
            lemma_line_end_bounds(s@, p as int);
        }
        while e < n && s.get_char(e) != '\n'
            invariant
                n == s@.len(),
                p <= e <= n,
                line_end(s@, e as int) == line_end(s@, p as int),
            decreases n - e,
        {
            e += 1;
        }
        let stop = if e > p && s.get_char(e - 1) == '\r' { e - 1 } else { e };
        let l = s.substring_char(p, stop);
        assert(l@ =~= strip_cr(s@.subrange(p as int, e as int)));
        let ghost prev = out@;
        out.push(l);
        assert(strs_view(out@) =~= strs_view(prev).push(l@));
        if e >= n {
            assert(spec_lines_from(s@, p as int) == seq![l@]);
            assert(spec_lines_from(s@, n as int) =~= Seq::<Seq<char>>::empty());
            assert(strs_view(out@) + spec_lines_from(s@, n as int) =~= strs_view(prev) + spec_lines_from(s@, p as int));
            p = n;
        } else {
            assert(spec_lines_from(s@, p as int) == seq![l@] + spec_lines_from(s@, e + 1));
            assert(strs_view(out@) + spec_lines_from(s@, e + 1) =~= strs_view(prev) + spec_lines_from(s@, p as int));
            p = e + 1;
        }
    }
    assert(spec_lines_from(s@, p as int) =~= Seq::<Seq<char>>::empty());
    assert(strs_view(out@) =~= strs_view(out@) + spec_lines_from(s@, p as int));
    out
}

/// The data before any line: no definitions and no variables
pub open spec fn empty_data() -> SpecCompileTimeData {
    SpecCompileTimeData { definitions: Seq::empty(), variables: Seq::empty() }
}

/// Lines of source code from the `k`th on, tokenized one after another with the data
/// each line leaves for the next; an error comes with its line number (counted from 1)
pub open spec fn spec_tokenize_from(lines: Seq<Seq<char>>, k: int, data: SpecCompileTimeData) -> Result<Seq<SpecIrLine>, (SpecIrError, nat)>
    decreases lines.len() - k,
{
    if k < 0 || k >= lines.len() {
        Ok(Seq::empty())
    } else {
        match spec_tokenize_line(lines[k], data) {
            Err(e) => Err((e, (k + 1) as nat)),
            Ok((l, next)) => match spec_tokenize_from(lines, k + 1, next) {
                Ok(rest) => Ok(seq![l] + rest),
                Err(x) => Err(x),
            },
        }
    }
}

/// The tokens of each line of a source text
pub open spec fn spec_tokenize(code: Seq<char>) -> Result<Seq<SpecIrLine>, (SpecIrError, nat)> {
    spec_tokenize_from(spec_lines(code), 0, empty_data())
}

/// Tokenizing the lines from the `k`th on gives one line of tokens for each of them
proof fn lemma_tokenize_from_len(lines: Seq<Seq<char>>, k: int, data: SpecCompileTimeData)
    requires
        0 <= k <= lines.len(),
    ensures
        spec_tokenize_from(lines, k, data) matches Ok(ls) ==> ls.len() == lines.len() - k,
    decreases lines.len() - k,
{
    if k < lines.len() {
        if let Ok((l, next)) = spec_tokenize_line(lines[k], data) {
            lemma_tokenize_from_len(lines, k + 1, next);
        }
    }
}

/// Each line of source code gives one line of tokens: comments, definitions and blank
/// lines give empty lines, so that the lines of tokens are numbered as the code is
pub proof fn lemma_tokenize_line_count(code: Seq<char>)
    ensures
        spec_tokenize(code) matches Ok(ls) ==> ls.len() == spec_lines(code).len(),
{
    lemma_tokenize_from_len(spec_lines(code), 0, empty_data());
}

/// The mathematical values of lines of tokens
pub open spec fn ir_lines_view<'s>(v: Seq<IrLine<'s>>) -> Seq<SpecIrLine> {
    v.map_values(|l: IrLine<'s>| ir_line_view(l))
}

/// Adds lines before the lines of a successful tokenization
pub open spec fn prepend_lines(ls: Seq<SpecIrLine>, r: Result<Seq<SpecIrLine>, (SpecIrError, nat)>) -> Result<Seq<SpecIrLine>, (SpecIrError, nat)> {
    match r {
        Ok(rest) => Ok(ls + rest),
        Err(x) => Err(x),
    }
}

/// Converts source code into lines of tokens,
/// returning the first error with its line number (counted from 1)
pub fn tokenize<'s>(code: &'s str) -> (r: Result<Vec<IrLine<'s>>, (IrError<'s>, usize)>)
    ensures
        match r {
            Ok(v) => spec_tokenize(code@) == Ok::<_, (SpecIrError, nat)>(ir_lines_view(v@)),
            Err((e, n)) => spec_tokenize(code@) == Err::<Seq<SpecIrLine>, _>((ir_error_view(e), n as nat)),
        },
{
    let lines = split_lines(code);
    let ghost sl = spec_lines(code@);
    let mut data = CompileTimeData::new();
    let mut out: Vec<IrLine<'s>> = Vec::new();
    let mut k: usize = 0;
    assert(data@ == empty_data());
    assert(ir_lines_view(out@) =~= Seq::<SpecIrLine>::empty());
    proof {
        match spec_tokenize_from(sl, 0, data@) {
            Ok(rest) => { assert(Seq::<SpecIrLine>::empty() + rest =~= rest); },
            Err(_) => {},
        }
    }
    while k < lines.len()
        invariant
            k <= lines@.len(),
            strs_view(lines@) == sl,
            sl == spec_lines(code@),
            spec_tokenize(code@) == prepend_lines(ir_lines_view(out@), spec_tokenize_from(sl, k as int, data@)),
        decreases lines@.len() - k,
    {
        assert(sl[k as int] == lines@[k as int]@);
        let ghost before = ir_lines_view(out@);
        let ghost d0 = data@;
        match tokenize_line(lines[k], &mut data) {
            Ok(l) => {
                out.push(l);
                assert(ir_lines_view(out@) =~= before + seq![ir_line_view(l)]);
                proof {
                    match spec_tokenize_from(sl, k + 1, data@) {
                        Ok(rest) => { assert(before + (seq![ir_line_view(l)] + rest) =~= (before + seq![ir_line_view(l)]) + rest); },
                        Err(_) => {},
                    }
                }
            },
            Err(e) => {
                return Err((e, k + 1));
            },
        }
        k += 1;
    }
    assert(ir_lines_view(out@) + Seq::<SpecIrLine>::empty() =~= ir_lines_view(out@));
    Ok(out)
}

/// Converts source code into lines of tokens and checks the structure of each line,
/// returning the first error with its line number (counted from 1)
pub fn tokenize_and_check<'s>(code: &'s str) -> (r: Result<Vec<IrLine<'s>>, (IrError<'s>, usize)>)
    ensures
        match r {
            Ok(v) => spec_tokenize(code@) == Ok::<_, (SpecIrError, nat)>(ir_lines_view(v@))
                && forall|k: int| 0 <= k < v@.len() ==> spec_check_token_line(#[trigger] v@[k]) is Ok,
            Err((e, n)) => match spec_tokenize(code@) {
                Err(x) => x == (ir_error_view(e), n as nat),
                Ok(ls) => exists|v: Seq<IrLine<'s>>| {
                    &&& ls == ir_lines_view(v)
                    &&& 1 <= n <= v.len()
                    &&& e matches IrError::BadStructure(se) && spec_check_token_line(v[n - 1]) == Err::<(), _>(se)
                    &&& forall|k: int| 0 <= k < n - 1 ==> spec_check_token_line(#[trigger] v[k]) is Ok
                },
            },
        },
{
    let lines = tokenize(code)?;
    let checked = check_tokens(lines.as_slice());
    match checked {
        Ok(()) => Ok(lines),
        Err((se, n)) => {
            assert(spec_check_token_line(lines@[n - 1]) == Err::<(), _>(se));
            Err((IrError::BadStructure(se), n))
        },
    }
}
}
