# cscsca

A sound change applier: rules written in linguistic sound change notation
(`{p, t, k} >> {b, d, g} / @V _ @V`) are applied, line by line, to words.
The library is written in Verus; its behaviour is stated in `requires` /
`ensures` contracts and proved.

## Layout

- `src/keywords.rs`, `src/tokens.rs`, `src/strings.rs`: the characters of the
  notation, directions, shifts, scope types and labels.
- `src/phones.rs`: phones, splitting input text into phones and writing phones
  back as text.
- `src/sub_string.rs`: a growing window over a text.
- `src/ir.rs`, `src/lexer.rs`, `src/tokenizer.rs`: turning a line of code into
  tokens (definitions, variables, comments and commands included).
- `src/token_checker.rs`: the structure rules on a line of tokens.
- `src/rules.rs`: building a rule (input, shift, output, conditions and
  anti-conditions) from tokens.
- `src/matcher.rs`: matching the tokens of a rule against phones, with the
  choices that scopes and wildcards make, and evaluating conditions.
- `src/applier.rs`: applying a rule to a list of phones in its direction.
- `src/runtime.rs`: running code one step at a time (`Executor`) and as a
  whole (`Runtime::apply`), with a limit on the changes a line may make.
- `src/display.rs`: the written form of tokens and rules, and error messages.
- `src/grammar.rs`: the syntax highlighting grammar of the language and the
  editor configuration, as indented JSON.
- `app/main.rs`: the command line program (files, standard input and output,
  time limits, writing the grammar files), built on the library.
- `tests/`: the tests.
