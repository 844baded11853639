use vstd::prelude::*;

verus! {

/// Shift to the right
pub const LTR_CHAR: char = '>';
/// Shift to the left
pub const RTL_CHAR: char = '<';
pub const OPTIONAL_START_CHAR: char = '(';
pub const OPTIONAL_END_CHAR: char = ')';
pub const SELECTION_START_CHAR: char = '{';
pub const SELECTION_END_CHAR: char = '}';
pub const ANY_CHAR: char = '*';
pub const ARG_SEP_CHAR: char = ',';
pub const COND_CHAR: char = '/';
pub const AND_CHAR: char = '&';
pub const NOT_CHAR: char = '!';
pub const MATCH_CHAR: char = '=';
pub const INPUT_PATTERN_CHAR: char = '_';
pub const DOT_CHAR: char = '.';
pub const SQUARE_START_CHAR: char = '[';
pub const SQUARE_END_CHAR: char = ']';
pub const ESCAPE_CHAR: char = '\\';
pub const BOUND_CHAR: char = '#';
pub const LABEL_PREFIX: char = '$';
pub const DEFINITION_PREFIX: char = '@';
pub const VARIABLE_PREFIX: char = '%';

}
