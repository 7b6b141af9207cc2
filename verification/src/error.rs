//! Why a rule is refused.

use vstd::prelude::*;

verus! {

/// Why a rule could not be parsed. `code()` is what the frontend translates.
#[derive(Debug, Clone, Copy, PartialEq, Eq, Structural)]
pub enum BypassRuleError {
    Empty,
    InvalidHost,
    InvalidPort,
    InvalidCidr,
    InvalidScheme,
    InvalidRegex,
}

/// The code of each reason.
pub open spec fn error_code(e: BypassRuleError) -> Seq<char> {
    match e {
        BypassRuleError::Empty => "BYPASS_RULE_EMPTY"@,
        BypassRuleError::InvalidHost => "BYPASS_RULE_INVALID_HOST"@,
        BypassRuleError::InvalidPort => "BYPASS_RULE_INVALID_PORT"@,
        BypassRuleError::InvalidCidr => "BYPASS_RULE_INVALID_CIDR"@,
        BypassRuleError::InvalidScheme => "BYPASS_RULE_INVALID_SCHEME"@,
        BypassRuleError::InvalidRegex => "BYPASS_RULE_INVALID_REGEX"@,
    }
}

impl BypassRuleError {
    /// A stable identifier of the reason.
    pub fn code(self) -> (code: &'static str)
        ensures
            code@ == error_code(self),
    {
        match self {
            BypassRuleError::Empty => "BYPASS_RULE_EMPTY",
            BypassRuleError::InvalidHost => "BYPASS_RULE_INVALID_HOST",
            BypassRuleError::InvalidPort => "BYPASS_RULE_INVALID_PORT",
            BypassRuleError::InvalidCidr => "BYPASS_RULE_INVALID_CIDR",
            BypassRuleError::InvalidScheme => "BYPASS_RULE_INVALID_SCHEME",
            BypassRuleError::InvalidRegex => "BYPASS_RULE_INVALID_REGEX",
        }
    }
}

} // verus!
