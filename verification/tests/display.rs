use cscsca::ir::{Break, IrToken, Prefix};
use cscsca::lexer::CompileTimeData;
use cscsca::phones::Phone;
use cscsca::rules::{build_rule, Cond, RuleLine, RuleStructureError, RuleToken};
use cscsca::token_checker::IrStructureError;
use cscsca::tokenizer::tokenize_line;
use cscsca::tokens::{AndType, CondType, Direction, LabelType, ScopeId, ScopeType, Shift, ShiftType};

/// The written form of the rule on one line of code
fn rule_text(line: &str) -> String {
    let mut data = CompileTimeData::new();
    let ir = tokenize_line(line, &mut data).unwrap();
    match build_rule(&ir).unwrap() {
        RuleLine::Rule(rule) => rule.to_string(),
        _ => panic!("expected a rule for {line:?}"),
    }
}

#[test]
fn shifts_are_written_as_in_code() {
    assert_eq!(Direction::Ltr.to_string(), ">");
    assert_eq!(Direction::Rtl.to_string(), "<");
    assert_eq!(Shift { dir: Direction::Ltr, kind: ShiftType::Move }.to_string(), ">>");
    assert_eq!(Shift { dir: Direction::Rtl, kind: ShiftType::Move }.to_string(), "<<");
    assert_eq!(Shift { dir: Direction::Ltr, kind: ShiftType::Stay }.to_string(), ">");
    assert_eq!(Shift { dir: Direction::Rtl, kind: ShiftType::Stay }.to_string(), "<");
}

#[test]
fn small_tokens_are_written_as_in_code() {
    assert_eq!(ScopeType::Optional.to_string(), "(...)");
    assert_eq!(ScopeType::Selection.to_string(), "{...}");
    assert_eq!(AndType::And.to_string(), "&");
    assert_eq!(AndType::AndNot.to_string(), "&!");
    assert_eq!(CondType::Pattern.to_string(), "_");
    assert_eq!(CondType::Match.to_string(), "=");
    assert_eq!(Prefix::Definition.to_string(), "@");
    assert_eq!(Prefix::Label.to_string(), "$");
    assert_eq!(Prefix::Variable.to_string(), "%");
    assert_eq!(Break::Cond.to_string(), "/");
    assert_eq!(Break::AntiCond.to_string(), "//");
    assert_eq!(Break::And(AndType::AndNot).to_string(), "&!");
    assert_eq!(LabelType::Any.to_string(), "*");
    assert_eq!(LabelType::Scope(ScopeType::Selection).to_string(), "{...}");
    assert_eq!(ScopeId::Name("lbl").to_string(), "$lbl");
    assert_eq!(ScopeId::IOUnlabeled { id_num: 0, label_type: LabelType::Any, parent: None }.to_string(), "");
    assert_eq!(Phone::Symbol("ts").to_string(), "ts");
    assert_eq!(Phone::Bound.to_string(), " ");
}

#[test]
fn ir_tokens_are_written_as_in_code() {
    assert_eq!(IrToken::Phone(Phone::Symbol("a")).to_string(), "a");
    assert_eq!(IrToken::Label("x").to_string(), "$x");
    assert_eq!(IrToken::Break(Break::Shift(Shift { dir: Direction::Rtl, kind: ShiftType::Move })).to_string(), "<<");
    assert_eq!(IrToken::Any.to_string(), "*");
    assert_eq!(IrToken::ArgSep.to_string(), ",");
    assert_eq!(IrToken::Gap.to_string(), "..");
    assert_eq!(IrToken::CondType(CondType::Match).to_string(), "=");
    assert_eq!(IrToken::ScopeStart(ScopeType::Optional).to_string(), "(");
    assert_eq!(IrToken::ScopeEnd(ScopeType::Selection).to_string(), "}");
}

#[test]
fn rule_tokens_are_written_with_spaces_inside_scopes() {
    let token = RuleToken::SelectionScope {
        id: Some(ScopeId::Name("s")),
        options: vec![
            vec![RuleToken::Phone(Phone::Symbol("a")), RuleToken::Phone(Phone::Symbol("b"))],
            vec![RuleToken::OptionalScope { id: None, content: vec![RuleToken::Any { id: None }] }],
        ],
    };
    assert_eq!(token.to_string(), "$s{ a b, ( * ) }");
    assert_eq!(RuleToken::Gap { id: Some("g") }.to_string(), "$g ..");
    assert_eq!(RuleToken::Gap { id: None }.to_string(), "..");
    assert_eq!(RuleToken::Any { id: Some(ScopeId::Name("k")) }.to_string(), "$k*");
}

#[test]
fn conditions_are_written_around_their_focus() {
    let cond = Cond::new(CondType::Pattern, vec![RuleToken::Phone(Phone::Symbol("a"))], vec![]);
    assert_eq!(cond.to_string(), "a _ ");
    let cond = Cond::new(
        CondType::Match,
        vec![RuleToken::Phone(Phone::Symbol("x"))],
        vec![RuleToken::Phone(Phone::Symbol("y"))],
    );
    assert_eq!(cond.to_string(), "x = y");
}

#[test]
fn rules_are_written_back() {
    assert_eq!(rule_text("a >> b"), "a >> b /  _ ");
    assert_eq!(rule_text("t j << c"), "t j << c /  _ ");
    assert_eq!(rule_text("{p, t} > {b, d} / a _ // _ #"), "{ p, t } > { b, d } / a _  //  _  ");
    assert_eq!(rule_text("$v(i) >> * / x = y"), "$v( i ) >> * / x = y");
}

#[test]
fn structure_errors_have_messages() {
    assert_eq!(
        IrStructureError::UnclosedScope(ScopeType::Optional).to_string(),
        "Found scope start '(' with no corresponding end ')'"
    );
    assert_eq!(
        IrStructureError::MismatchedScopeBounds(ScopeType::Selection, ScopeType::Optional).to_string(),
        "Found scope start '{' closed with mismatched scope end ')'"
    );
    assert_eq!(
        IrStructureError::DisallowedTokenInScope(IrToken::Break(Break::Cond)).to_string(),
        "A '/' token may not occur in a scope"
    );
    assert_eq!(
        IrStructureError::SelectionDoesNotProceedScope("l").to_string(),
        "Scope label '$l' does not proceed a scope"
    );
    assert_eq!(
        IrStructureError::NoShift.to_string(),
        "Found rule with no shift token, consider commenting it out with '##'"
    );
    assert_eq!(
        IrStructureError::FocusOutOfCond(CondType::Pattern).to_string(),
        "Found condition focus ('_') outside of a condition or anti-condition"
    );
    assert_eq!(
        RuleStructureError::MismatchedScopeBounds(ScopeType::Optional, ScopeType::Selection).to_string(),
        "Found mismatched scope bounds '('...'}'"
    );
    assert_eq!(RuleStructureError::UnclosedScope(ScopeType::Selection).to_string(), "Found unclosed '{'");
    assert_eq!(RuleStructureError::UnexpectedToken(IrToken::ArgSep).to_string(), "Found unexpected token ','");
    assert_eq!(
        RuleStructureError::SecondShift(Shift { dir: Direction::Ltr, kind: ShiftType::Stay }).to_string(),
        "Found a second shift token '>' after the first"
    );
    assert_eq!(
        RuleStructureError::AndDoesNotFollowCond(AndType::And).to_string(),
        "Found '&' outside of a condition"
    );
}
