use vstd::prelude::*;
use vstd::string::{StrSliceExecFns, StringExecFns};
use crate::applier::{ApplicationError, find_change, spec_next, spec_replaced, spec_scan, spec_start, lemma_scan_in_range};
use crate::ir::{IrLine, RuntimeCmd, SpecIrLine, ir_line_view};
use crate::keywords::ESCAPE_CHAR;
use crate::lexer::{CompileTimeData, IrError, SpecCompileTimeData, ir_error_view, spec_is_special};
use crate::matcher::{SpecOutcome, spec_as_phones};
use crate::phones::{Phone, SpecPhone, build_phone_list, phone_list_to_string, phones_text, phones_view, spec_build_phone_list, unescape};
use crate::rules::{RuleLine, RuleStructureError, SoundChangeRule, SpecRule, SpecRuleLine, build_rule, rule_view, spec_build_rule};
use crate::tokenizer::{comment_start, spec_has_prefix, spec_lines, spec_tokenize_line, split_lines, strs_view, tokenize_line};
use crate::tokens::Direction;

verus! {

// ---------------------------------------------------------------------------
// Escaping input text

/// Whether a character of input text is escaped before the text becomes phones:
/// the characters that have a meaning in rules
pub open spec fn needs_escape(c: char) -> bool {
    spec_is_special(c) || c == ESCAPE_CHAR || c == '.' || c == '_' || c == '!'
}

/// Input text with an escape character before each character that has a meaning in rules
pub open spec fn spec_escape(s: Seq<char>) -> Seq<char>
    decreases s.len(),
{
    if s.len() == 0 {
        Seq::empty()
    } else {
        spec_escape(s.drop_last()) + if needs_escape(s.last()) {
            seq![ESCAPE_CHAR, s.last()]
        } else {
            seq![s.last()]
        }
    }
}

/// The escapes of two texts one after the other are the escapes of the joined text
pub proof fn lemma_escape_concat(a: Seq<char>, b: Seq<char>)
    ensures
        spec_escape(a + b) == spec_escape(a) + spec_escape(b),
    decreases b.len(),
{
    if b.len() == 0 {
        assert(a + b =~= a);
        assert(spec_escape(a) + spec_escape(b) =~= spec_escape(a));
    } else {
        lemma_escape_concat(a, b.drop_last());
        assert((a + b).drop_last() =~= a + b.drop_last());
        assert((a + b).last() == b.last());
        let piece = if needs_escape(b.last()) { seq![ESCAPE_CHAR, b.last()] } else { seq![b.last()] };
        assert(spec_escape(a) + spec_escape(b.drop_last()) + piece =~= spec_escape(a) + (spec_escape(b.drop_last()) + piece));
    }
}

/// Removing the escapes of escaped input text gives back the text
pub proof fn lemma_unescape_escape(s: Seq<char>)
    ensures
        unescape(spec_escape(s)) == s,
    decreases s.len(),
{
    if s.len() > 0 {
        let c = s[0];
        let rest = s.drop_first();
        assert(s =~= seq![c] + rest);
        lemma_escape_concat(seq![c], rest);
        assert(seq![c].drop_last() =~= Seq::<char>::empty());
        assert(spec_escape(Seq::<char>::empty()) =~= Seq::<char>::empty());
        lemma_unescape_escape(rest);
        let e = spec_escape(s);
        if needs_escape(c) {
            assert(spec_escape(seq![c]) =~= seq![ESCAPE_CHAR, c]);
            assert(e =~= seq![ESCAPE_CHAR, c] + spec_escape(rest));
            assert(e.skip(2) =~= spec_escape(rest));
            assert(unescape(e) == seq![c] + unescape(e.skip(2)));
        } else {
            assert(spec_escape(seq![c]) =~= seq![c]);
            assert(e =~= seq![c] + spec_escape(rest));
            assert(e.skip(1) =~= spec_escape(rest));
            assert(unescape(e) == seq![c] + unescape(e.skip(1)));
        }
        assert(seq![c] + rest =~= s);
    }
}

/// Escapes the characters of input text that have a meaning in rules,
/// so that each of them becomes a phone of its own
pub fn escape_input(input: &str) -> (r: String)
    ensures
        r@ == spec_escape(input@),
{
    let n = input.unicode_len();
    let mut out = String::new();
    let mut i: usize = 0;
    while i < n
        invariant
            n == input@.len(),
            i <= n,
            out@ == spec_escape(input@.subrange(0, i as int)),
        decreases n - i,
    {
        let c = input.get_char(i);
        let piece = input.substring_char(i, i + 1);
        if crate::lexer::is_special(c) || c == ESCAPE_CHAR || c == '.' || c == '_' || c == '!' {
            out.append("\\");
        }
        out.append(piece);
        proof {
            reveal_strlit("\\");
            let s2 = input@.subrange(0, i + 1);
            assert(s2.drop_last() =~= input@.subrange(0, i as int));
            assert(s2.last() == c);
            assert(piece@ =~= seq![c]);
        }
        i += 1;
        assert(out@ =~= spec_escape(input@.subrange(0, i as int)));
    }
    assert(input@.subrange(0, n as int) =~= input@);
    out
}

// ---------------------------------------------------------------------------
// Limits and logs

/// A limit for how long a line can be executed for,
/// prevents infinite loops from being infinite
#[derive(Debug, Clone, Copy, PartialEq, Eq)]
pub enum LineApplicationLimit {
    /// No limit on line application
    Unlimited,
    /// Maximum time allotted for line application
    Time(std::time::Duration),
    /// Maximum times a line may change the phones
    Attempts(usize),
}

/// The number of changes a line may make under a limit; a limit of time is kept
/// by whoever runs the steps of an execution, and `usize::MAX` stands for no limit
pub open spec fn spec_max_changes(limit: LineApplicationLimit) -> usize {
    match limit {
        LineApplicationLimit::Attempts(k) => k,
        _ => usize::MAX,
    }
}

/// The number of changes a line may make under a limit
pub fn max_changes(limit: LineApplicationLimit) -> (r: usize)
    ensures
        r == spec_max_changes(limit),
{
    match limit {
        LineApplicationLimit::Attempts(k) => k,
        _ => usize::MAX,
    }
}

/// A log of printed messages
#[derive(Debug)]
pub struct PrintLog {
    logs: Vec<String>,
}

impl View for PrintLog {
    type V = Seq<Seq<char>>;

    closed spec fn view(&self) -> Seq<Seq<char>> {
        self.logs@.map_values(|s: String| s@)
    }
}

impl PrintLog {
    /// Creates an empty log
    pub fn new() -> (r: Self)
        ensures
            r@ == Seq::<Seq<char>>::empty(),
    {
        let r = PrintLog { logs: Vec::new() };
        assert(r@ =~= Seq::<Seq<char>>::empty());
        r
    }

    /// Logs a string
    pub fn log(&mut self, log: String)
        ensures
            final(self)@ == old(self)@.push(log@),
    {
        self.logs.push(log);
        assert(self@ =~= old(self)@.push(log@));
    }

    /// Returns a reference to the logs
    pub fn logs(&self) -> (r: &[String])
        ensures
            r@.map_values(|s: String| s@) == self@,
    {
        self.logs.as_slice()
    }

    /// Empties the log and returns its contents
    pub fn flush(self) -> (r: Vec<String>)
        ensures
            r@.map_values(|s: String| s@) == self@,
    {
        self.logs
    }
}

// ---------------------------------------------------------------------------
// Errors

/// What went wrong on a line
#[derive(Debug, PartialEq, Eq)]
pub enum ScaErrorKind<'s> {
    /// The line could not be tokenized
    Ir(IrError<'s>),
    /// The tokens of the line do not form a rule
    Structure(RuleStructureError<'s>),
    /// The rule could not be applied
    Application(ApplicationError),
    /// A `GET` line without both a variable name and a message
    GetFormat,
    /// A `GET` line where no input can be had
    NoInput,
}

/// An error with the number of the line it happened on (counted from 1)
#[derive(Debug, PartialEq, Eq)]
pub struct ScaError<'s> {
    pub kind: ScaErrorKind<'s>,
    pub line: usize,
}

// ---------------------------------------------------------------------------
// Execution

/// A rule being applied: where its scan goes on (or `None` when it has ended)
/// and how many changes it has made
struct ActiveRule<'s> {
    rule: SoundChangeRule<'s>,
    pos: Option<usize>,
    count: usize,
}

/// The execution of source code on phones, one step at a time: each step runs a line
/// that is not a rule, starts a rule, or makes one change of the rule being applied
pub struct Executor<'s> {
    lines: Vec<&'s str>,
    line: usize,
    phones: Vec<Phone<'s>>,
    data: CompileTimeData<'s>,
    active: Option<ActiveRule<'s>>,
    max_changes: usize,
}

/// The mathematical value of an execution: the lines of code, the index of the line
/// being run, the phones, the definitions and variables, the rule being applied (with the
/// index its scan goes on from and the changes it made), and the changes a line may make
pub struct SpecExecutor {
    pub lines: Seq<Seq<char>>,
    pub line: int,
    pub phones: Seq<SpecPhone>,
    pub data: SpecCompileTimeData,
    pub active: Option<(SpecRule, int, nat)>,
    pub max_changes: nat,
}

impl<'s> View for Executor<'s> {
    type V = SpecExecutor;

    closed spec fn view(&self) -> SpecExecutor {
        SpecExecutor {
            lines: strs_view(self.lines@),
            line: self.line as int,
            phones: phones_view(self.phones@),
            data: self.data@,
            active: match self.active {
                Some(a) => Some((
                    rule_view(a.rule),
                    match a.pos {
                        Some(p) => p as int,
                        None => -1,
                    },
                    a.count as nat,
                )),
                None => None,
            },
            max_changes: self.max_changes as nat,
        }
    }
}

/// What a step did
pub enum Step<'s> {
    /// A line without output ran, a rule started or ended, or a rule made a change
    Ran,
    /// A `PRINT` line ran: its message and the phones
    Print(String),
    /// A `GET` or `GET_AS_CODE` line asks for the variable `name` with a message
    Get { name: &'s str, message: &'s str, as_code: bool },
    /// All lines ran: the phones as text
    Finished(String),
    /// A line failed
    Failed(ScaError<'s>),
}

/// The text of a list of phones
pub open spec fn spec_phones_string(ps: Seq<SpecPhone>) -> Seq<char> {
    unescape(phones_text(ps))
}

/// The message a `PRINT` line logs: its text and the phones in quotes
pub open spec fn spec_print_message(msg: Seq<char>, ps: Seq<SpecPhone>) -> Seq<char> {
    msg + seq![' ', '\''] + spec_phones_string(ps) + seq!['\'']
}

/// The position of the first space in `s` from `p` on, if any
pub open spec fn first_space(s: Seq<char>, p: int) -> Option<int>
    decreases s.len() - p,
{
    if p < 0 || p >= s.len() {
        None
    } else if s[p] == ' ' {
        Some(p)
    } else {
        first_space(s, p + 1)
    }
}

/// An execution after the line it runs is done with: the next line, with the given data
pub open spec fn next_line(st: SpecExecutor, data: SpecCompileTimeData) -> SpecExecutor {
    SpecExecutor { line: st.line + 1, data, active: None, ..st }
}

/// Whether `step` and the execution `st2` are what one step of the execution `st` gives:
/// a rule being applied makes its next change or ends; otherwise the next line is
/// tokenized with the current definitions and variables and run: a command reports,
/// a rule starts to be applied, an empty line does nothing; errors carry their line number
pub open spec fn spec_step<'s>(st: SpecExecutor, st2: SpecExecutor, step: Step<'s>) -> bool {
    match st.active {
        Some((rule, pos, count)) => match spec_scan(rule, st.phones, pos) {
            (_, SpecOutcome::Fail) => st2 == next_line(st, st.data) && step is Ran,
            (_, SpecOutcome::Error) => step == Step::<'s>::Failed(ScaError {
                kind: ScaErrorKind::Application(ApplicationError::PatternCannotBeConvertedToPhones),
                line: (st.line + 1) as usize,
            }),
            (j, SpecOutcome::Found(n, ch)) => match spec_as_phones(rule.output, ch) {
                None => step == Step::<'s>::Failed(ScaError {
                    kind: ScaErrorKind::Application(ApplicationError::PatternCannotBeConvertedToPhones),
                    line: (st.line + 1) as usize,
                }),
                Some(out) => if count >= st.max_changes {
                    step == Step::<'s>::Failed(ScaError {
                        kind: ScaErrorKind::Application(ApplicationError::LimitReached),
                        line: (st.line + 1) as usize,
                    })
                } else {
                    let (a, b) = spec_replaced(rule.kind.dir, st.phones.len() as int, j, n as int);
                    let next = spec_next(rule.kind.dir, rule.kind.kind, j, n as int, a, out.len() as int);
                    &&& step is Ran
                    &&& st2 == SpecExecutor {
                        phones: st.phones.subrange(0, a) + out + st.phones.subrange(b, st.phones.len() as int),
                        active: Some((rule, if next < 0 { -1 } else { next }, count + 1)),
                        ..st
                    }
                },
            },
        },
        None => if st.line < 0 || st.line >= st.lines.len() {
            &&& st2 == st
            &&& step matches Step::Finished(text) && text@ == spec_phones_string(st.phones)
        } else {
            match spec_tokenize_line(st.lines[st.line], st.data) {
                Err(e) => step matches Step::Failed(ScaError { kind: ScaErrorKind::Ir(x), line })
                    && ir_error_view(x) == e && line == st.line + 1,
                Ok((SpecIrLine::Empty, d2)) => st2 == next_line(st, d2) && step is Ran,
                Ok((SpecIrLine::Cmd(RuntimeCmd::Print, msg), d2)) => {
                    &&& st2 == next_line(st, d2)
                    &&& step matches Step::Print(m) && m@ == spec_print_message(msg, st.phones)
                },
                Ok((SpecIrLine::Cmd(cmd, args), d2)) => match first_space(args, 0) {
                    None => step == Step::<'s>::Failed(ScaError { kind: ScaErrorKind::GetFormat, line: (st.line + 1) as usize }),
                    Some(p) => {
                        &&& st2 == next_line(st, d2)
                        &&& step matches Step::Get { name, message, as_code } && name@ == args.subrange(0, p)
                            && message@ == args.subrange(p + 1, args.len() as int) && as_code == (cmd is GetAsCode)
                    },
                },
                Ok((SpecIrLine::Ir(ts), d2)) => exists|l: IrLine<'s>| {
                    &&& ir_line_view(l) == SpecIrLine::Ir(ts)
                    &&& match spec_build_rule(l) {
                        Err(e) => step == Step::<'s>::Failed(ScaError { kind: ScaErrorKind::Structure(e), line: (st.line + 1) as usize }),
                        Ok(SpecRuleLine::Rule(r)) => step is Ran && st2 == SpecExecutor {
                            data: d2,
                            active: Some((r, spec_start(r.kind.dir, st.phones.len() as int), 0)),
                            ..st
                        },
                        Ok(_) => step is Ran && st2 == next_line(st, d2),
                    }
                },
            }
        },
    }
}

impl<'s> Executor<'s> {
    /// Starts the execution of `code` on the phones of `text` (text as phones are written,
    /// see `escape_input`), where a line may make at most `max_changes` changes
    pub fn new(text: &'s str, code: &'s str, max_changes: usize) -> (r: Self)
        ensures
            r@ == (SpecExecutor {
                lines: spec_lines(code@),
                line: 0,
                phones: spec_build_phone_list(text@),
                data: crate::tokenizer::empty_data(),
                active: None,
                max_changes: max_changes as nat,
            }),
    {
        Executor {
            lines: split_lines(code),
            line: 0,
            phones: build_phone_list(text),
            data: CompileTimeData::new(),
            active: None,
            max_changes,
        }
    }

    /// The index of the line being run (counted from 0)
    pub fn line_number(&self) -> (r: usize)
        ensures
            r == self@.line,
    {
        self.line
    }

    /// The current phones as text
    pub fn phones_string(&self) -> (r: String)
        ensures
            r@ == spec_phones_string(self@.phones),
    {
        phone_list_to_string(self.phones.as_slice())
    }

    /// Gives a variable the value a `GET` line asked for: as code, or as the phones of
    /// the text (text as phones are written, see `escape_input`)
    pub fn set_variable(&mut self, name: &'s str, value: &'s str, as_code: bool) -> (r: Result<(), IrError<'s>>)
        ensures
            final(self)@.lines == old(self)@.lines,
            final(self)@.line == old(self)@.line,
            final(self)@.phones == old(self)@.phones,
            final(self)@.active == old(self)@.active,
            final(self)@.max_changes == old(self)@.max_changes,
            final(self)@.data.definitions == old(self)@.data.definitions,
            !as_code ==> r is Ok && final(self)@.data.variables == old(self)@.data.variables.push(
                (name@, crate::lexer::phone_tokens(spec_build_phone_list(value@))),
            ),
            as_code ==> match crate::lexer::spec_lex(value@, 0, old(self)@.data.definitions, old(self)@.data.variables) {
                Ok(ts) => r is Ok && final(self)@.data.variables == old(self)@.data.variables.push((name@, ts)),
                Err(e) => r matches Err(x) && ir_error_view(x) == e && final(self)@.data == old(self)@.data,
            },
    {
        proof {
            use_type_invariant(&*self);
        }
        let mut data = CompileTimeData::new();
        std::mem::swap(&mut data, &mut self.data);
        let r = if as_code {
            data.set_variable(name, value)
        } else {
            data.set_variable_phones(name, value);
            Ok(())
        };
        std::mem::swap(&mut data, &mut self.data);
        r
    }

    /// An execution applies a rule only while a line is run
    #[verifier::type_invariant]
    spec fn wf(&self) -> bool {
        self.active is Some ==> self.line < self.lines@.len()
    }

    /// Runs one step of the execution
    pub fn step(&mut self) -> (r: Step<'s>)
        ensures
            spec_step(old(self)@, final(self)@, r),
    {
        proof {
            use_type_invariant(&*self);
        }
        let ghost st = self@;
        let line_num = self.line;
        let lines_len = self.lines.len();
        assert(self.active is Some ==> line_num < lines_len);
        if self.active.is_some() {
            let mut taken: Option<ActiveRule<'s>> = None;
            std::mem::swap(&mut taken, &mut self.active);
            let mut active = taken.unwrap();
            let ghost rv = rule_view(active.rule);
            assert(st.active == Some((rv, match active.pos { Some(p) => p as int, None => -1int }, active.count as nat)));
            let pos = match active.pos {
                Some(p) => p,
                None => {
                    assert(spec_scan(rv, st.phones, -1) == (-1int, SpecOutcome::Fail));
                    self.line = line_num + 1;
                    return Step::Ran;
                },
            };
            proof {
                lemma_scan_in_range(rv, st.phones, pos as int);
            }
            let change = match find_change(&active.rule, self.phones.as_slice(), pos) {
                Err(e) => {
                    return Step::Failed(ScaError { kind: ScaErrorKind::Application(e), line: line_num + 1 });
                },
                Ok(None) => {
                    self.line = line_num + 1;
                    return Step::Ran;
                },
                Ok(Some(c)) => c,
            };
            if active.count >= self.max_changes {
                return Step::Failed(ScaError { kind: ScaErrorKind::Application(ApplicationError::LimitReached), line: line_num + 1 });
            }
            let dir = active.rule.kind.dir;
            let len = self.phones.len();
            let j = change.index;
            let n = change.len;
            let m = change.output.len();
            let (a, b) = match dir {
                Direction::Ltr => (j, if n <= len - j { j + n } else { len }),
                Direction::Rtl => (if n <= j + 1 { j + 1 - n } else { 0 }, j + 1),
            };
            let new_phones = crate::applier::splice(&self.phones, a, b, &change.output);
            assert(phones_view(new_phones@).len() == new_phones@.len());
            assert(phones_view(change.output@).len() == m);
            assert(new_phones@.len() == a + m + (len - b));
            let new_len = new_phones.len();
            let next: Option<usize> = if n == 0 && m == 0 {
                match dir {
                    Direction::Ltr => Some(j + 1),
                    Direction::Rtl => if j >= 1 { Some(j - 1) } else { None },
                }
            } else {
                match (dir, active.rule.kind.kind) {
                    (Direction::Ltr, crate::tokens::ShiftType::Move) => Some(a + m),
                    (Direction::Ltr, crate::tokens::ShiftType::Stay) => Some(a),
                    (Direction::Rtl, crate::tokens::ShiftType::Move) => if a >= 1 { Some(a - 1) } else { None },
                    (Direction::Rtl, crate::tokens::ShiftType::Stay) => if m > 0 { Some(a + m - 1) } else if a >= 1 { Some(a - 1) } else { None },
                }
            };
            proof {
                let (sa, sb) = spec_replaced(rv.kind.dir, st.phones.len() as int, j as int, n as int);
                assert(sa == a && sb == b);
                let nx = spec_next(rv.kind.dir, rv.kind.kind, j as int, n as int, a as int, m as int);
                match next {
                    Some(q) => assert(nx == q),
                    None => assert(nx < 0),
                }
            }
            self.phones = new_phones;
            active.pos = next;
            active.count = active.count + 1;
            self.active = Some(active);
            return Step::Ran;
        }
        if line_num >= self.lines.len() {
            return Step::Finished(self.phones_string());
        }
        let line = self.lines[line_num];
        let ghost text = st.lines[line_num as int];
        assert(line@ == text);
        let mut data = CompileTimeData::new();
        std::mem::swap(&mut data, &mut self.data);
        let tokenized = tokenize_line(line, &mut data);
        std::mem::swap(&mut data, &mut self.data);
        match tokenized {
            Err(e) => Step::Failed(ScaError { kind: ScaErrorKind::Ir(e), line: line_num + 1 }),
            Ok(IrLine::Empty) => {
                self.line = line_num + 1;
                Step::Ran
            },
            Ok(IrLine::Cmd(RuntimeCmd::Print, msg)) => {
                let m = print_message(msg, &self.phones);
                self.line = line_num + 1;
                Step::Print(m)
            },
            Ok(IrLine::Cmd(cmd, args)) => {
                match split_at_space(args) {
                    None => Step::Failed(ScaError { kind: ScaErrorKind::GetFormat, line: line_num + 1 }),
                    Some((name, message)) => {
                        self.line = line_num + 1;
                        let as_code = match cmd {
                            RuntimeCmd::GetAsCode => true,
                            _ => false,
                        };
                        Step::Get { name, message, as_code }
                    },
                }
            },
            Ok(l) => {
                let built = build_rule(&l);
                proof {
                    assert(ir_line_view(l) is Ir);
                }
                match built {
                    Err(e) => Step::Failed(ScaError { kind: ScaErrorKind::Structure(e), line: line_num + 1 }),
                    Ok(RuleLine::Rule(rule)) => {
                        let len = self.phones.len();
                        let start = match rule.kind.dir {
                            Direction::Ltr => Some(0),
                            Direction::Rtl => if len > 0 { Some(len - 1) } else { None },
                        };
                        self.active = Some(ActiveRule { rule, pos: start, count: 0 });
                        Step::Ran
                    },
                    Ok(_) => {
                        self.line = line_num + 1;
                        Step::Ran
                    },
                }
            },
        }
    }
}

/// The message a `PRINT` line logs
fn print_message(msg: &str, phones: &Vec<Phone>) -> (r: String)
    ensures
        r@ == spec_print_message(msg@, phones_view(phones@)),
{
    let mut r = String::from_str(msg);
    r.append(" '");
    let text = phone_list_to_string(phones.as_slice());
    r.append(text.as_str());
    r.append("'");
    proof {
        reveal_strlit(" '");
        reveal_strlit("'");
    }
    r
}

/// Splits a text at its first space
fn split_at_space<'s>(s: &'s str) -> (r: Option<(&'s str, &'s str)>)
    ensures
        match first_space(s@, 0) {
            None => r is None,
            Some(p) => r matches Some((a, b)) && a@ == s@.subrange(0, p) && b@ == s@.subrange(p + 1, s@.len() as int),
        },
{
    let n = s.unicode_len();
    let mut i: usize = 0;
    while i < n
        invariant
            n == s@.len(),
            i <= n,
            first_space(s@, 0) == first_space(s@, i as int),
        decreases n - i,
    {
        if s.get_char(i) == ' ' {
            return Some((s.substring_char(0, i), s.substring_char(i + 1, n)));
        }
        i += 1;
    }
    None
}


// ---------------------------------------------------------------------------
// Runtime

/// Whether running the execution `st` ends within `n` steps in `res`, having printed `logs`
/// on the way; a `GET` line ends it with an error, since no input can be had
pub open spec fn spec_runs<'s>(st: SpecExecutor, n: nat, res: Result<Seq<char>, ScaError<'s>>, logs: Seq<Seq<char>>) -> bool
    decreases n,
{
    n > 0 && exists|st2: SpecExecutor, step: Step<'s>| #[trigger] spec_step(st, st2, step) && match step {
        Step::Ran => spec_runs(st2, (n - 1) as nat, res, logs),
        Step::Print(m) => logs.len() > 0 && logs[0] == m@ && spec_runs(st2, (n - 1) as nat, res, logs.drop_first()),
        Step::Get { .. } => res == Err::<Seq<char>, ScaError<'s>>(ScaError { kind: ScaErrorKind::NoInput, line: (st.line + 1) as usize })
            && logs.len() == 0,
        Step::Finished(t) => res == Ok::<Seq<char>, ScaError<'s>>(t@) && logs.len() == 0,
        Step::Failed(e) => res == Err::<Seq<char>, ScaError<'s>>(e) && logs.len() == 0,
    }
}

/// Once no rule is being applied, running lines that are all comments gives back the
/// phones as text, with nothing printed
pub proof fn lemma_comments_change_nothing<'s>(
    st: SpecExecutor,
    n: nat,
    res: Result<Seq<char>, ScaError<'s>>,
    logs: Seq<Seq<char>>,
)
    requires
        st.active is None,
        0 <= st.line,
        forall|i: int| st.line <= i < st.lines.len() ==> spec_has_prefix(#[trigger] st.lines[i], comment_start()),
        spec_runs(st, n, res, logs),
    ensures
        res == Ok::<Seq<char>, ScaError<'s>>(spec_phones_string(st.phones)),
        logs.len() == 0,
    decreases n,
{
    let (st2, step) = choose|st2: SpecExecutor, step: Step<'s>| #[trigger] spec_step(st, st2, step) && match step {
        Step::Ran => spec_runs(st2, (n - 1) as nat, res, logs),
        Step::Print(m) => logs.len() > 0 && logs[0] == m@ && spec_runs(st2, (n - 1) as nat, res, logs.drop_first()),
        Step::Get { .. } => res == Err::<Seq<char>, ScaError<'s>>(ScaError { kind: ScaErrorKind::NoInput, line: (st.line + 1) as usize })
            && logs.len() == 0,
        Step::Finished(t) => res == Ok::<Seq<char>, ScaError<'s>>(t@) && logs.len() == 0,
        Step::Failed(e) => res == Err::<Seq<char>, ScaError<'s>>(e) && logs.len() == 0,
    };
    if st.line < st.lines.len() {
        assert(spec_has_prefix(st.lines[st.line], comment_start()));
        assert(spec_tokenize_line(st.lines[st.line], st.data) == Ok::<(SpecIrLine, SpecCompileTimeData), crate::lexer::SpecIrError>((SpecIrLine::Empty, st.data)));
        lemma_comments_change_nothing(st2, (n - 1) as nat, res, logs);
    }
}

/// Running code whose lines are all comments (no code at all among them) gives back
/// the phones of the text as text, with nothing printed
pub proof fn lemma_comment_code_keeps_text<'s>(
    text: Seq<char>,
    code: Seq<char>,
    max_changes: nat,
    n: nat,
    res: Result<Seq<char>, ScaError<'s>>,
    logs: Seq<Seq<char>>,
)
    requires
        forall|i: int| 0 <= i < spec_lines(code).len() ==> spec_has_prefix(#[trigger] spec_lines(code)[i], comment_start()),
        spec_runs(spec_initial(text, code, max_changes), n, res, logs),
    ensures
        res == Ok::<Seq<char>, ScaError<'s>>(spec_phones_string(spec_build_phone_list(text))),
        logs.len() == 0,
{
    lemma_comments_change_nothing(spec_initial(text, code, max_changes), n, res, logs);
}

/// The mathematical value of the result of running code
pub open spec fn result_view<'s>(r: Result<String, ScaError<'s>>) -> Result<Seq<char>, ScaError<'s>> {
    match r {
        Ok(s) => Ok(s@),
        Err(e) => Err(e),
    }
}

/// The execution of `code` on the phones of `text` that has not run a step yet
pub open spec fn spec_initial(text: Seq<char>, code: Seq<char>, max_changes: nat) -> SpecExecutor {
    SpecExecutor {
        lines: spec_lines(code),
        line: 0,
        phones: spec_build_phone_list(text),
        data: crate::tokenizer::empty_data(),
        active: None,
        max_changes,
    }
}

/// A context for applying sound changes: how long a line may take
pub struct Runtime {
    line_application_limit: LineApplicationLimit,
}

/// The limit a new runtime has: ten thousand changes a line
pub open spec fn spec_default_limit() -> LineApplicationLimit {
    LineApplicationLimit::Attempts(10000)
}

impl Default for Runtime {
    /// A runtime with the default limit
    fn default() -> (r: Self)
        ensures
            r.limit() == spec_default_limit(),
    {
        Runtime::new()
    }
}

impl Runtime {
    /// The limit of this runtime
    pub closed spec fn limit(&self) -> LineApplicationLimit {
        self.line_application_limit
    }

    /// Creates a runtime with the default limit
    pub fn new() -> (r: Self)
        ensures
            r.limit() == spec_default_limit(),
    {
        Runtime { line_application_limit: LineApplicationLimit::Attempts(10000) }
    }

    /// Sets the runtime's limit on applying a line
    pub fn set_line_application_limit(&mut self, limit: LineApplicationLimit)
        ensures
            final(self).limit() == limit,
    {
        self.line_application_limit = limit;
    }

    /// Gets the runtime's limit on applying a line
    pub fn get_line_application_limit(&self) -> (r: LineApplicationLimit)
        ensures
            r == self.limit(),
    {
        self.line_application_limit
    }

    /// Applies the rules of `code` to the phones of `text` (text as phones are written,
    /// see `escape_input`) and returns the phones as text, with the messages printed on the
    /// way; a `GET` line fails, since no input can be had, and a line may make as many
    /// changes as the limit allows
    pub fn apply<'s>(&self, text: &'s str, code: &'s str) -> (r: (Result<String, ScaError<'s>>, PrintLog))
        ensures
            exists|n: nat| spec_runs(
                spec_initial(text@, code@, spec_max_changes(self.limit()) as nat),
                n,
                result_view(r.0),
                r.1@,
            ),
    {
        let mut ex = Executor::new(text, code, max_changes(self.line_application_limit));
        let ghost init = ex@;
        let mut log = PrintLog::new();
        let ghost mut k: nat = 0;
        loop
            invariant
                init == spec_initial(text@, code@, spec_max_changes(self.limit()) as nat),
                ex@.lines == init.lines,
                ex@.max_changes == init.max_changes,
                0 <= ex@.line <= ex@.lines.len(),
                match ex@.active {
                    Some((_, _, c)) => c <= ex@.max_changes && ex@.line < ex@.lines.len(),
                    None => true,
                },
                forall|m: nat, res: Result<Seq<char>, ScaError<'s>>, rest: Seq<Seq<char>>|
                    spec_runs(ex@, m, res, rest) ==> #[trigger] spec_runs(init, m + k, res, log@ + rest),
            decreases
                ex@.lines.len() - ex@.line,
                match ex@.active {
                    Some((_, _, c)) => ex@.max_changes - c + 1,
                    None => ex@.max_changes + 2int,
                },
        {
            let ghost cur = ex@;
            let ghost logs0 = log@;
            let line_before = ex.line_number();
            let step = ex.step();
            proof {
                use_type_invariant(&ex);
            }
            let ghost nxt = ex@;
            match step {
                Step::Ran => {
                    proof {
                        assert forall|m: nat, res: Result<Seq<char>, ScaError<'s>>, rest: Seq<Seq<char>>|
                            spec_runs(nxt, m, res, rest) implies #[trigger] spec_runs(init, m + (k + 1), res, log@ + rest) by {
                            assert(spec_step(cur, nxt, Step::<'s>::Ran));
                            assert(spec_runs(cur, m + 1, res, rest));
                            assert(m + (k + 1) == (m + 1) + k);
                        }
                        k = k + 1;
                    }
                },
                Step::Print(msg) => {
                    let ghost mv = msg@;
                    log.log(msg);
                    proof {
                        assert forall|m: nat, res: Result<Seq<char>, ScaError<'s>>, rest: Seq<Seq<char>>|
                            spec_runs(nxt, m, res, rest) implies #[trigger] spec_runs(init, m + (k + 1), res, log@ + rest) by {
                            let full = seq![mv] + rest;
                            assert(full.drop_first() =~= rest);
                            assert(full[0] == mv);
                            assert(spec_runs(cur, m + 1, res, full));
                            assert(logs0 + full =~= log@ + rest);
                            assert(m + (k + 1) == (m + 1) + k);
                        }
                        k = k + 1;
                    }
                },
                Step::Get { name, message, as_code } => {
                    proof {
                        assert(cur.active is None && 0 <= cur.line < cur.lines.len());
                    }
                    let e = ScaError { kind: ScaErrorKind::NoInput, line: line_before + 1 };
                    proof {
                        assert(spec_runs(cur, 1, Err::<Seq<char>, ScaError<'s>>(e), Seq::empty()));
                        assert(spec_runs(init, 1 + k, Err::<Seq<char>, ScaError<'s>>(e), log@ + Seq::<Seq<char>>::empty()));
                        assert(log@ + Seq::<Seq<char>>::empty() =~= log@);
                        assert(spec_runs(init, 1 + k, Err::<Seq<char>, ScaError<'s>>(e), log@));
                    }
                    let out = (Err(e), log);
                    assert(spec_runs(spec_initial(text@, code@, spec_max_changes(self.limit()) as nat), 1 + k, result_view(out.0), out.1@));
                    return out;
                },
                Step::Finished(t) => {
                    proof {
                        assert(spec_runs(cur, 1, Ok::<Seq<char>, ScaError<'s>>(t@), Seq::empty()));
                        assert(spec_runs(init, 1 + k, Ok::<Seq<char>, ScaError<'s>>(t@), log@ + Seq::<Seq<char>>::empty()));
                        assert(log@ + Seq::<Seq<char>>::empty() =~= log@);
                        assert(spec_runs(init, 1 + k, Ok::<Seq<char>, ScaError<'s>>(t@), log@));
                    }
                    let out = (Ok(t), log);
                    assert(spec_runs(spec_initial(text@, code@, spec_max_changes(self.limit()) as nat), 1 + k, result_view(out.0), out.1@));
                    return out;
                },
                Step::Failed(e) => {
                    proof {
                        assert(spec_runs(cur, 1, Err::<Seq<char>, ScaError<'s>>(e), Seq::empty()));
                        assert(spec_runs(init, 1 + k, Err::<Seq<char>, ScaError<'s>>(e), log@ + Seq::<Seq<char>>::empty()));
                        assert(log@ + Seq::<Seq<char>>::empty() =~= log@);
                        assert(spec_runs(init, 1 + k, Err::<Seq<char>, ScaError<'s>>(e), log@));
                    }
                    let out = (Err(e), log);
                    assert(spec_runs(spec_initial(text@, code@, spec_max_changes(self.limit()) as nat), 1 + k, result_view(out.0), out.1@));
                    return out;
                },
            }
        }
    }
}

}
