use vstd::prelude::*;
use vstd::string::{StrSliceExecFns, StringExecFns};
use crate::phones::{is_whitespace, spec_is_whitespace};
use crate::tokenizer::{spec_lines, split_lines, strs_view};

verus! {

// ---------------------------------------------------------------------------
// Indenting JSON

/// The index of the first character of `s` from `i` on that is not whitespace
/// (the length of `s` if there is none)
pub open spec fn lead_end(s: Seq<char>, i: int) -> int
    decreases s.len() - i,
{
    if i < 0 || i >= s.len() {
        s.len() as int
    } else if spec_is_whitespace(s[i]) {
        lead_end(s, i + 1)
    } else {
        i
    }
}

/// The index just after the last character of `s` before `j` that is not whitespace,
/// looking no further back than `lo`
pub open spec fn trail_end(s: Seq<char>, lo: int, j: int) -> int
    decreases j - lo,
{
    if j <= lo {
        lo
    } else if spec_is_whitespace(s[j - 1]) {
        trail_end(s, lo, j - 1)
    } else {
        j
    }
}

/// A text without its leading and trailing whitespace
pub open spec fn spec_trim(s: Seq<char>) -> Seq<char> {
    let lo = lead_end(s, 0);
    s.subrange(lo, trail_end(s, lo, s.len() as int))
}

proof fn lemma_lead_end_bounds(s: Seq<char>, i: int)
    requires
        0 <= i <= s.len(),
    ensures
        i <= lead_end(s, i) <= s.len(),
    decreases s.len() - i,
{
    if i < s.len() && spec_is_whitespace(s[i]) {
        lemma_lead_end_bounds(s, i + 1);
    }
}

/// Removes the leading and trailing whitespace of a text
pub fn trim(s: &str) -> (r: &str)
    ensures
        r@ == spec_trim(s@),
{
    let n = s.unicode_len();
    let mut lo: usize = 0;
    while lo < n && is_whitespace(s.get_char(lo))
        invariant
            n == s@.len(),
            lo <= n,
            lead_end(s@, 0) == lead_end(s@, lo as int),
        decreases n - lo,
    {
        lo += 1;
    }
    let mut hi: usize = n;
    proof {
        lemma_lead_end_bounds(s@, 0);
    }
    while hi > lo && is_whitespace(s.get_char(hi - 1))
        invariant
            n == s@.len(),
            lo == lead_end(s@, 0),
            lo <= hi <= n,
            trail_end(s@, lo as int, n as int) == trail_end(s@, lo as int, hi as int),
        decreases hi,
    {
        hi -= 1;
    }
    s.substring_char(lo, hi)
}

/// Whether a line of JSON closes a bracket first
pub open spec fn closes(l: Seq<char>) -> bool {
    l.len() > 0 && (l[0] == '}' || l[0] == ']')
}

/// Whether a line of JSON opens a bracket last
pub open spec fn opens(l: Seq<char>) -> bool {
    l.len() > 0 && (l.last() == '{' || l.last() == '[')
}

/// `d` tabs, none when `d` is not positive
pub open spec fn tabs(d: int) -> Seq<char> {
    Seq::new(if d > 0 { d as nat } else { 0 }, |i: int| '\t')
}

/// Lines of JSON indented from the depth `depth` on: each line is trimmed, a line that
/// closes a bracket first is one level less deep, a line that opens one last makes the
/// next lines one level deeper; each line comes after a tab for each level and ends with
/// a line break
pub open spec fn spec_style_lines(lines: Seq<Seq<char>>, depth: int) -> Seq<char>
    decreases lines.len(),
{
    if lines.len() == 0 {
        Seq::empty()
    } else {
        let l = spec_trim(lines[0]);
        let d = if closes(l) { depth - 1 } else { depth };
        tabs(d) + l + seq!['\n'] + spec_style_lines(lines.drop_first(), if opens(l) { d + 1 } else { d })
    }
}

/// JSON text indented by its brackets, one line at a time
pub open spec fn spec_style_json(json: Seq<char>) -> Seq<char> {
    spec_style_lines(spec_lines(json), 0)
}

/// Indents JSON text by its brackets: each line is trimmed and put after a tab for each
/// bracket open around it
pub fn style_json(json: &str) -> (r: String)
    ensures
        r@ == spec_style_json(json@),
{
    let lines = split_lines(json);
    let ghost ls = strs_view(lines@);
    let mut styled = String::new();
    let mut depth: i128 = 0;
    let mut k: usize = 0;
    assert(ls.subrange(0, ls.len() as int) =~= ls);
    while k < lines.len()
        invariant
            ls == strs_view(lines@),
            ls == spec_lines(json@),
            ls.len() == lines@.len(),
            k <= lines@.len(),
            -(k as int) <= depth <= k,
            styled@ + spec_style_lines(ls.subrange(k as int, ls.len() as int), depth as int) == spec_style_json(json@),
        decreases lines@.len() - k,
    {
        let ghost rest = ls.subrange(k as int, ls.len() as int);
        let line = trim(lines[k]);
        let m = line.unicode_len();
        assert(rest[0] == lines@[k as int]@);
        if m > 0 && (line.get_char(0) == '}' || line.get_char(0) == ']') {
            depth = depth - 1;
        }
        let ghost before = styled@;
        let mut t: i128 = 0;
        while t < depth
            invariant
                0 <= t,
                depth > 0 ==> t <= depth,
                depth <= 0 ==> t == 0,
                styled@ == before + tabs(t as int),
            decreases depth - t,
        {
            proof {
                reveal_strlit("\t");
            }
            styled.append("\t");
            assert(before + tabs(t as int) + seq!['\t'] =~= before + tabs(t + 1));
            t = t + 1;
        }
        assert(tabs(t as int) =~= tabs(depth as int));
        let ghost d = depth as int;
        styled.append(line);
        proof {
            reveal_strlit("\n");
        }
        styled.append("\n");
        if m > 0 && (line.get_char(m - 1) == '{' || line.get_char(m - 1) == '[') {
            depth = depth + 1;
        }
        proof {
            assert(rest.drop_first() =~= ls.subrange(k + 1, ls.len() as int));
            assert(before + (tabs(d) + line@ + seq!['\n'] + spec_style_lines(rest.drop_first(), depth as int))
                =~= before + tabs(d) + line@ + seq!['\n'] + spec_style_lines(rest.drop_first(), depth as int));
        }
        k += 1;
    }
    assert(ls.subrange(k as int, ls.len() as int) =~= Seq::<Seq<char>>::empty());
    assert(styled@ + Seq::<char>::empty() =~= styled@);
    styled
}

// ---------------------------------------------------------------------------
// The grammar file

/// Texts joined with a separator between each two
pub open spec fn joined(parts: Seq<Seq<char>>, sep: Seq<char>) -> Seq<char>
    decreases parts.len(),
{
    if parts.len() == 0 {
        Seq::empty()
    } else if parts.len() == 1 {
        parts[0]
    } else {
        joined(parts.drop_last(), sep) + sep + parts.last()
    }
}

/// Joining one more part adds the separator and the part
proof fn lemma_joined_step(parts: Seq<Seq<char>>, sep: Seq<char>, k: int)
    requires
        0 <= k < parts.len(),
    ensures
        joined(parts.subrange(0, k + 1), sep) == if k == 0 {
            parts[0]
        } else {
            joined(parts.subrange(0, k), sep) + sep + parts[k]
        },
{
    let p = parts.subrange(0, k + 1);
    assert(p.drop_last() =~= parts.subrange(0, k));
    assert(p.last() == parts[k]);
}

/// A pattern of the grammar: its name, the names of the scope it marks, and its regular expression
pub struct GrammarPattern<'a> {
    pub name: &'a str,
    pub pat_name: Vec<&'a str>,
    pub match_regex: String,
}

/// The mathematical value of a pattern of the grammar
pub struct SpecGrammarPattern {
    pub name: Seq<char>,
    pub pat_name: Seq<Seq<char>>,
    pub match_regex: Seq<char>,
}

/// The mathematical value of a pattern of the grammar
pub open spec fn pattern_view<'a>(p: GrammarPattern<'a>) -> SpecGrammarPattern {
    SpecGrammarPattern { name: p.name@, pat_name: strs_view(p.pat_name@), match_regex: p.match_regex@ }
}

/// The mathematical values of the patterns of a group
pub open spec fn patterns_view<'a>(ps: Seq<GrammarPattern<'a>>) -> Seq<SpecGrammarPattern> {
    ps.map_values(|p: GrammarPattern<'a>| pattern_view(p))
}

/// The mathematical values of named groups of patterns
pub open spec fn groups_view<'a>(gs: Seq<(&'a str, Vec<GrammarPattern<'a>>)>) -> Seq<(Seq<char>, Seq<SpecGrammarPattern>)> {
    gs.map_values(|g: (&'a str, Vec<GrammarPattern<'a>>)| (g.0@, patterns_view(g.1@)))
}

/// The entry of a pattern in the repository of the grammar
pub open spec fn pattern_text(p: SpecGrammarPattern) -> Seq<char> {
    "\""@ + p.name + "\": {\n\"name\": \""@ + joined(p.pat_name, ".cscsca "@) + ".cscsca\",\n\"match\": \""@
        + p.match_regex + "\"\n}"@
}

/// A reference to a pattern from a list of patterns
pub open spec fn include_text(name: Seq<char>) -> Seq<char> {
    "{\"include\": \"#"@ + name + "\" }"@
}

/// The list of the patterns of a group
pub open spec fn pattern_list_text(ps: Seq<SpecGrammarPattern>) -> Seq<char> {
    "\"patterns\": [\n"@ + joined(ps.map_values(|p: SpecGrammarPattern| include_text(p.name)), ",\n"@) + "\n]"@
}

/// The references to the groups at the top of the grammar
pub open spec fn repo_text(gs: Seq<(Seq<char>, Seq<SpecGrammarPattern>)>) -> Seq<char> {
    joined(gs.map_values(|g: (Seq<char>, Seq<SpecGrammarPattern>)| "{\"include\": \"#"@ + g.0 + "\"}"@), ", "@)
}

/// The entry of a group in the repository of the grammar
pub open spec fn group_head_text(g: (Seq<char>, Seq<SpecGrammarPattern>)) -> Seq<char> {
    "\""@ + g.0 + "\": {\n"@ + pattern_list_text(g.1) + "\n}"@
}

/// The entries of the groups in the repository
pub open spec fn heads_text(gs: Seq<(Seq<char>, Seq<SpecGrammarPattern>)>) -> Seq<char> {
    joined(gs.map_values(|g: (Seq<char>, Seq<SpecGrammarPattern>)| group_head_text(g)), ",\n"@)
}

/// The entries of the patterns of a group in the repository
pub open spec fn group_patterns_text(ps: Seq<SpecGrammarPattern>) -> Seq<char> {
    joined(ps.map_values(|p: SpecGrammarPattern| pattern_text(p)), ",\n"@)
}

/// The entries of the patterns of all groups in the repository
pub open spec fn pats_text(gs: Seq<(Seq<char>, Seq<SpecGrammarPattern>)>) -> Seq<char> {
    joined(gs.map_values(|g: (Seq<char>, Seq<SpecGrammarPattern>)| group_patterns_text(g.1)), ",\n"@)
}

/// The grammar of named groups of patterns, before it is indented
pub open spec fn grammar_raw(gs: Seq<(Seq<char>, Seq<SpecGrammarPattern>)>) -> Seq<char> {
    "{\n\"$schema\": \"https://raw.githubusercontent.com/martinring/tmlanguage/master/tmlanguage.json\",\n\"name\": \"CSCSCA\",\n\"patterns\": ["@
        + repo_text(gs) + "],\n\"repository\": {\n"@ + heads_text(gs) + ",\n"@ + pats_text(gs)
        + "\n},\n\"scopeName\": \"source.sca\"\n}"@
}

/// Appends the `k`th of the parts of a joined text, after the separator unless it is the first
fn append_part(out: &mut String, k: usize, sep: &str, part: String, Ghost(parts): Ghost<Seq<Seq<char>>>)
    requires
        k < parts.len(),
        old(out)@ == joined(parts.subrange(0, k as int), sep@),
        part@ == parts[k as int],
    ensures
        final(out)@ == joined(parts.subrange(0, k + 1), sep@),
{
    proof {
        lemma_joined_step(parts, sep@, k as int);
    }
    if k > 0 {
        out.append(sep);
    }
    out.append(part.as_str());
}

/// The entry of a pattern in the repository of the grammar
fn pattern_string(p: &GrammarPattern) -> (r: String)
    ensures
        r@ == pattern_text(pattern_view(*p)),
{
    let ghost names = strs_view(p.pat_name@);
    let mut joined_names = String::new();
    let mut k: usize = 0;
    while k < p.pat_name.len()
        invariant
            names == strs_view(p.pat_name@),
            names.len() == p.pat_name@.len(),
            k <= p.pat_name@.len(),
            joined_names@ == joined(names.subrange(0, k as int), ".cscsca "@),
        decreases p.pat_name@.len() - k,
    {
        append_part(&mut joined_names, k, ".cscsca ", String::from_str(p.pat_name[k]), Ghost(names));
        k += 1;
    }
    assert(names.subrange(0, k as int) =~= names);
    let mut r = String::from_str("\"");
    r.append(p.name);
    r.append("\": {\n\"name\": \"");
    r.append(joined_names.as_str());
    r.append(".cscsca\",\n\"match\": \"");
    r.append(p.match_regex.as_str());
    r.append("\"\n}");
    r
}

/// The list of the patterns of a group
fn pattern_list_string(ps: &Vec<GrammarPattern>) -> (r: String)
    ensures
        r@ == pattern_list_text(patterns_view(ps@)),
{
    let ghost pv = patterns_view(ps@);
    let ghost parts = pv.map_values(|p: SpecGrammarPattern| include_text(p.name));
    let mut list = String::new();
    let mut k: usize = 0;
    while k < ps.len()
        invariant
            pv == patterns_view(ps@),
            parts == pv.map_values(|p: SpecGrammarPattern| include_text(p.name)),
            parts.len() == ps@.len(),
            k <= ps@.len(),
            list@ == joined(parts.subrange(0, k as int), ",\n"@),
        decreases ps@.len() - k,
    {
        let mut part = String::from_str("{\"include\": \"#");
        part.append(ps[k].name);
        part.append("\" }");
        append_part(&mut list, k, ",\n", part, Ghost(parts));
        k += 1;
    }
    assert(parts.subrange(0, k as int) =~= parts);
    let mut r = String::from_str("\"patterns\": [\n");
    r.append(list.as_str());
    r.append("\n]");
    r
}

/// The entries of the patterns of a group in the repository
fn group_patterns_string(ps: &Vec<GrammarPattern>) -> (r: String)
    ensures
        r@ == group_patterns_text(patterns_view(ps@)),
{
    let ghost pv = patterns_view(ps@);
    let ghost parts = pv.map_values(|p: SpecGrammarPattern| pattern_text(p));
    let mut out = String::new();
    let mut k: usize = 0;
    while k < ps.len()
        invariant
            pv == patterns_view(ps@),
            parts == pv.map_values(|p: SpecGrammarPattern| pattern_text(p)),
            parts.len() == ps@.len(),
            k <= ps@.len(),
            out@ == joined(parts.subrange(0, k as int), ",\n"@),
        decreases ps@.len() - k,
    {
        append_part(&mut out, k, ",\n", pattern_string(&ps[k]), Ghost(parts));
        k += 1;
    }
    assert(parts.subrange(0, k as int) =~= parts);
    out
}

/// Builds the grammar file of named groups of patterns: references to the groups, then
/// the entries of the groups and of their patterns, indented by `style_json`
pub fn build_grammar_file(patterns: &[(&str, Vec<GrammarPattern>)]) -> (r: String)
    ensures
        r@ == spec_style_json(grammar_raw(groups_view(patterns@))),
{
    let ghost gv = groups_view(patterns@);
    let ghost repo_parts = gv.map_values(|g: (Seq<char>, Seq<SpecGrammarPattern>)| "{\"include\": \"#"@ + g.0 + "\"}"@);
    let ghost head_parts = gv.map_values(|g: (Seq<char>, Seq<SpecGrammarPattern>)| group_head_text(g));
    let ghost pat_parts = gv.map_values(|g: (Seq<char>, Seq<SpecGrammarPattern>)| group_patterns_text(g.1));
    let mut repo = String::new();
    let mut heads = String::new();
    let mut pats = String::new();
    let mut k: usize = 0;
    while k < patterns.len()
        invariant
            gv == groups_view(patterns@),
            repo_parts == gv.map_values(|g: (Seq<char>, Seq<SpecGrammarPattern>)| "{\"include\": \"#"@ + g.0 + "\"}"@),
            head_parts == gv.map_values(|g: (Seq<char>, Seq<SpecGrammarPattern>)| group_head_text(g)),
            pat_parts == gv.map_values(|g: (Seq<char>, Seq<SpecGrammarPattern>)| group_patterns_text(g.1)),
            gv.len() == patterns@.len(),
            k <= patterns@.len(),
            repo@ == joined(repo_parts.subrange(0, k as int), ", "@),
            heads@ == joined(head_parts.subrange(0, k as int), ",\n"@),
            pats@ == joined(pat_parts.subrange(0, k as int), ",\n"@),
        decreases patterns@.len() - k,
    {
        let (name, group) = &patterns[k];
        let mut r_part = String::from_str("{\"include\": \"#");
        r_part.append(name);
        r_part.append("\"}");
        append_part(&mut repo, k, ", ", r_part, Ghost(repo_parts));
        let mut h_part = String::from_str("\"");
        h_part.append(name);
        h_part.append("\": {\n");
        h_part.append(pattern_list_string(group).as_str());
        h_part.append("\n}");
        append_part(&mut heads, k, ",\n", h_part, Ghost(head_parts));
        append_part(&mut pats, k, ",\n", group_patterns_string(group), Ghost(pat_parts));
        k += 1;
    }
    assert(repo_parts.subrange(0, k as int) =~= repo_parts);
    assert(head_parts.subrange(0, k as int) =~= head_parts);
    assert(pat_parts.subrange(0, k as int) =~= pat_parts);
    let mut raw = String::from_str(
        "{\n\"$schema\": \"https://raw.githubusercontent.com/martinring/tmlanguage/master/tmlanguage.json\",\n\"name\": \"CSCSCA\",\n\"patterns\": [",
    );
    raw.append(repo.as_str());
    raw.append("],\n\"repository\": {\n");
    raw.append(heads.as_str());
    raw.append(",\n");
    raw.append(pats.as_str());
    raw.append("\n},\n\"scopeName\": \"source.sca\"\n}");
    style_json(raw.as_str())
}

// ---------------------------------------------------------------------------
// The grammar of the language and its editor configuration

/// The bracket pairs of the language: optional scopes and selections
pub open spec fn bracket_pairs_text() -> Seq<char> {
    "[\n[\"(\", \")\"],\n[\"{\", \"}\"]\n]"@
}

/// The editor configuration of the language, before it is indented: the comment start
/// and the bracket pairs that are matched, closed and surround a selection
pub open spec fn config_raw() -> Seq<char> {
    "{\n\"comments\": {\n\"lineComment\": \"##\"\n},\n\"brackets\": "@ + bracket_pairs_text()
        + ",\n\"autoClosingPairs\": "@ + bracket_pairs_text() + ",\n\"surroundingPairs\": "@ + bracket_pairs_text()
        + "\n}"@
}

/// Builds the editor configuration of the language
pub fn build_config() -> (r: String)
    ensures
        r@ == spec_style_json(config_raw()),
{
    let pairs = "[\n[\"(\", \")\"],\n[\"{\", \"}\"]\n]";
    let mut raw = String::from_str("{\n\"comments\": {\n\"lineComment\": \"##\"\n},\n\"brackets\": ");
    raw.append(pairs);
    raw.append(",\n\"autoClosingPairs\": ");
    raw.append(pairs);
    raw.append(",\n\"surroundingPairs\": ");
    raw.append(pairs);
    raw.append("\n}");
    style_json(raw.as_str())
}

/// The patterns of the grammar of the language, in two groups: comments (with the messages
/// of commands), and the expressions of code (keywords of statements, escapes, special
/// characters, calls of definitions and variables, labels, the names that statements
/// define, breaks, separators, scope bounds, reserved characters and phones)
pub open spec fn grammar_patterns() -> Seq<(Seq<char>, Seq<SpecGrammarPattern>)> {
    seq![
        ("comment"@, seq![
            SpecGrammarPattern { name: "comment_"@, pat_name: seq!["comment"@], match_regex: "(^\\\\#\\\\#|(?<=(^(PRINT|(GET|GET_AS_CODE)\\\\s*\\\\S+)))).*?$"@ },
        ]),
        ("expression"@, seq![
            SpecGrammarPattern { name: "statement"@, pat_name: seq!["keyword"@, "strong"@], match_regex: "^(DEFINE|PRINT|GET|GET_AS_CODE)"@ },
            SpecGrammarPattern { name: "escape"@, pat_name: seq!["constant.character.escape"@], match_regex: "\\\\\\\\."@ },
            SpecGrammarPattern { name: "potentially_special_characters"@, pat_name: seq!["keyword"@], match_regex: "(?<=((\\\\s|^|$|>|<|/|&|@|\\\\$|%|\\\\#|,|\\\\*|=|\\\\(|\\\\)|\\\\{|\\\\}|\\\\.|\\\\[|\\\\])))(_|\\\\.\\\\.)(?=((\\\\s|^|$|>|<|/|&|@|\\\\$|%|\\\\#|,|\\\\*|=|\\\\(|\\\\)|\\\\{|\\\\}|\\\\.|\\\\[|\\\\])))"@ },
            SpecGrammarPattern { name: "special_characters"@, pat_name: seq!["keyword"@], match_regex: "\\\\#|\\\\*|="@ },
            SpecGrammarPattern { name: "definition_call"@, pat_name: seq!["entity.name.type"@], match_regex: "@\\\\S+?(?=((\\\\s|^|$|>|<|/|&|@|\\\\$|%|\\\\#|,|\\\\*|=|\\\\(|\\\\)|\\\\{|\\\\}|\\\\.|\\\\[|\\\\])))"@ },
            SpecGrammarPattern { name: "variable_call"@, pat_name: seq!["entity.name.type"@, "emphasis"@], match_regex: "%\\\\S+?(?=((\\\\s|^|$|>|<|/|&|@|\\\\$|%|\\\\#|,|\\\\*|=|\\\\(|\\\\)|\\\\{|\\\\}|\\\\.|\\\\[|\\\\])))"@ },
            SpecGrammarPattern { name: "label"@, pat_name: seq!["entity.name.function"@, "emphasis"@], match_regex: "\\\\$\\\\S+?(?=((\\\\s|^|$|>|<|/|&|@|\\\\$|%|\\\\#|,|\\\\*|=|\\\\(|\\\\)|\\\\{|\\\\}|\\\\.|\\\\[|\\\\])))"@ },
            SpecGrammarPattern { name: "definition_name"@, pat_name: seq!["entity.name.type"@], match_regex: "(?=(^DEFINE\\\\s*?))\\\\S+?(?=((\\\\s|^|$|>|<|/|&|@|\\\\$|%|\\\\#|,|\\\\*|=|\\\\(|\\\\)|\\\\{|\\\\}|\\\\.|\\\\[|\\\\])))"@ },
            SpecGrammarPattern { name: "variable_name"@, pat_name: seq!["entity.name.type"@, "emphasis"@], match_regex: "(?=(^(GET|GET_AS_CODE)\\\\s*?))\\\\S+?(?=((\\\\s|^|$|>|<|/|&|@|\\\\$|%|\\\\#|,|\\\\*|=|\\\\(|\\\\)|\\\\{|\\\\}|\\\\.|\\\\[|\\\\])))"@ },
            SpecGrammarPattern { name: "breaks"@, pat_name: seq!["keyword.control"@], match_regex: ">>|>|<<|<|/|//|&"@ },
            SpecGrammarPattern { name: "punctuation"@, pat_name: seq!["punctuation.seperator"@], match_regex: ","@ },
            SpecGrammarPattern { name: "scope_bound"@, pat_name: seq!["punctuation.bound"@], match_regex: "\\\\(|\\\\)|\\\\{|\\\\}"@ },
            SpecGrammarPattern { name: "reserved"@, pat_name: seq!["invalid.reserved"@], match_regex: "\\\\.|\\\\[|\\\\]"@ },
            SpecGrammarPattern { name: "phone"@, pat_name: seq!["variable.phone"@], match_regex: "\\\\S+?(?=((\\\\s|^|$|>|<|/|&|@|\\\\$|%|\\\\#|,|\\\\*|=|\\\\(|\\\\)|\\\\{|\\\\}|\\\\.|\\\\[|\\\\])))"@ },
        ]),
    ]
}

/// A pattern of the grammar that marks one scope
fn pattern1<'a>(name: &'a str, scope: &'a str, regex: &str) -> (r: GrammarPattern<'a>)
    ensures
        pattern_view(r) == (SpecGrammarPattern { name: name@, pat_name: seq![scope@], match_regex: regex@ }),
{
    let mut pat_name = Vec::new();
    pat_name.push(scope);
    assert(strs_view(pat_name@) =~= seq![scope@]);
    GrammarPattern { name, pat_name, match_regex: String::from_str(regex) }
}

/// A pattern of the grammar that marks two scopes
fn pattern2<'a>(name: &'a str, scope: &'a str, scope2: &'a str, regex: &str) -> (r: GrammarPattern<'a>)
    ensures
        pattern_view(r) == (SpecGrammarPattern { name: name@, pat_name: seq![scope@, scope2@], match_regex: regex@ }),
{
    let mut pat_name = Vec::new();
    pat_name.push(scope);
    pat_name.push(scope2);
    assert(strs_view(pat_name@) =~= seq![scope@, scope2@]);
    GrammarPattern { name, pat_name, match_regex: String::from_str(regex) }
}

/// Builds the grammar of the language for syntax highlighting
pub fn build_grammar() -> (r: String)
    ensures
        r@ == spec_style_json(grammar_raw(grammar_patterns())),
{
    let mut group0: Vec<GrammarPattern> = Vec::new();
    group0.push(pattern1("comment_", "comment", "(^\\\\#\\\\#|(?<=(^(PRINT|(GET|GET_AS_CODE)\\\\s*\\\\S+)))).*?$"));
    assert(patterns_view(group0@) =~= grammar_patterns()[0].1);
    let mut group1: Vec<GrammarPattern> = Vec::new();
    group1.push(pattern2("statement", "keyword", "strong", "^(DEFINE|PRINT|GET|GET_AS_CODE)"));
    group1.push(pattern1("escape", "constant.character.escape", "\\\\\\\\."));
    group1.push(pattern1("potentially_special_characters", "keyword", "(?<=((\\\\s|^|$|>|<|/|&|@|\\\\$|%|\\\\#|,|\\\\*|=|\\\\(|\\\\)|\\\\{|\\\\}|\\\\.|\\\\[|\\\\])))(_|\\\\.\\\\.)(?=((\\\\s|^|$|>|<|/|&|@|\\\\$|%|\\\\#|,|\\\\*|=|\\\\(|\\\\)|\\\\{|\\\\}|\\\\.|\\\\[|\\\\])))"));
    group1.push(pattern1("special_characters", "keyword", "\\\\#|\\\\*|="));
    group1.push(pattern1("definition_call", "entity.name.type", "@\\\\S+?(?=((\\\\s|^|$|>|<|/|&|@|\\\\$|%|\\\\#|,|\\\\*|=|\\\\(|\\\\)|\\\\{|\\\\}|\\\\.|\\\\[|\\\\])))"));
    group1.push(pattern2("variable_call", "entity.name.type", "emphasis", "%\\\\S+?(?=((\\\\s|^|$|>|<|/|&|@|\\\\$|%|\\\\#|,|\\\\*|=|\\\\(|\\\\)|\\\\{|\\\\}|\\\\.|\\\\[|\\\\])))"));
    group1.push(pattern2("label", "entity.name.function", "emphasis", "\\\\$\\\\S+?(?=((\\\\s|^|$|>|<|/|&|@|\\\\$|%|\\\\#|,|\\\\*|=|\\\\(|\\\\)|\\\\{|\\\\}|\\\\.|\\\\[|\\\\])))"));
    group1.push(pattern1("definition_name", "entity.name.type", "(?=(^DEFINE\\\\s*?))\\\\S+?(?=((\\\\s|^|$|>|<|/|&|@|\\\\$|%|\\\\#|,|\\\\*|=|\\\\(|\\\\)|\\\\{|\\\\}|\\\\.|\\\\[|\\\\])))"));
    group1.push(pattern2("variable_name", "entity.name.type", "emphasis", "(?=(^(GET|GET_AS_CODE)\\\\s*?))\\\\S+?(?=((\\\\s|^|$|>|<|/|&|@|\\\\$|%|\\\\#|,|\\\\*|=|\\\\(|\\\\)|\\\\{|\\\\}|\\\\.|\\\\[|\\\\])))"));
    group1.push(pattern1("breaks", "keyword.control", ">>|>|<<|<|/|//|&"));
    group1.push(pattern1("punctuation", "punctuation.seperator", ","));
    group1.push(pattern1("scope_bound", "punctuation.bound", "\\\\(|\\\\)|\\\\{|\\\\}"));
    group1.push(pattern1("reserved", "invalid.reserved", "\\\\.|\\\\[|\\\\]"));
    group1.push(pattern1("phone", "variable.phone", "\\\\S+?(?=((\\\\s|^|$|>|<|/|&|@|\\\\$|%|\\\\#|,|\\\\*|=|\\\\(|\\\\)|\\\\{|\\\\}|\\\\.|\\\\[|\\\\])))"));
    assert(patterns_view(group1@) =~= grammar_patterns()[1].1);
    let mut patterns: Vec<(&str, Vec<GrammarPattern>)> = Vec::new();
    patterns.push(("comment", group0));
    patterns.push(("expression", group1));
    assert(groups_view(patterns@) =~= grammar_patterns());
    build_grammar_file(patterns.as_slice())
}

}
