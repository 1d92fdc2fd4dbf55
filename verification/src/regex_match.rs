//! A regular-expression predicate with optional negation: a pattern whose
//! leading `!` inverts the match result.  Compilation failure is a fatal
//! configuration error and is propagated.

use vstd::prelude::*;

use crate::text::str_eq;

verus! {

#[verifier::external_type_specification]
#[verifier::external_body]
pub struct ExRegex(regex::Regex);

#[verifier::external_type_specification]
#[verifier::external_body]
pub struct ExRegexCrateError(regex::Error);

/// The pattern text a compiled regex was built from.
pub uninterp spec fn regex_pattern(re: regex::Regex) -> Seq<char>;

/// Does `regex::Regex::new` accept the pattern?
pub uninterp spec fn regex_compiles(pattern: Seq<char>) -> bool;

/// Does the pattern match somewhere in the haystack?  The result of
/// `regex::Regex::is_match`, a function of the pattern and haystack alone.
pub uninterp spec fn regex_accepts(pattern: Seq<char>, haystack: Seq<char>) -> bool;

/// Relies on regex::Regex::new: compiling a pattern succeeds or fails by the
/// pattern text alone, and the compiled regex keeps that text.
pub assume_specification[ regex::Regex::new ](re: &str) -> (r: Result<regex::Regex, regex::Error>)
    ensures
        r is Ok <==> regex_compiles(re@),
        r matches Result::Ok(rx) ==> regex_pattern(rx) == re@,
;

/// Relies on regex::Regex::is_match: whether the regex matches anywhere in
/// the haystack, a function of its pattern and the haystack.
pub assume_specification[ regex::Regex::is_match ](re: &regex::Regex, haystack: &str) -> (b: bool)
    ensures
        b == regex_accepts(regex_pattern(*re), haystack@),
;

/// Relies on regex::Regex::as_str: it returns the original pattern string.
pub assume_specification<'a>[ regex::Regex::as_str ](re: &'a regex::Regex) -> (r: &'a str)
    ensures
        r@ == regex_pattern(*re),
;

/// The error returned when a match pattern does not compile: the pattern
/// text, with any leading `!` already removed.
#[derive(Debug)]
pub struct RegexError {
    pub pattern: String,
}

/// A parsed representation of a field like `from_regex` of the rewrite rule.
#[derive(Debug)]
pub struct RegexMatch {
    /// Regular expression to apply to the value.
    pub regex: regex::Regex,
    /// If `true`, the result is negated.
    pub negate: bool,
}

/// Does the pattern text ask for negation?
pub open spec fn spec_negated(s: Seq<char>) -> bool {
    s.len() > 0 && s[0] == '!'
}

/// The pattern text with any leading `!` removed.
pub open spec fn spec_stripped(s: Seq<char>) -> Seq<char> {
    if spec_negated(s) {
        s.skip(1)
    } else {
        s
    }
}

impl RegexMatch {
    /// Checks whether the given value is matched: the raw regex result,
    /// inverted when the pattern was negated.
    pub fn matches(&self, value: &str) -> (r: bool)
        ensures
            r == if self.negate {
                !regex_accepts(regex_pattern(self.regex), value@)
            } else {
                regex_accepts(regex_pattern(self.regex), value@)
            },
    {
        let result = self.regex.is_match(value);
        if self.negate {
            !result
        } else {
            result
        }
    }

    /// Compile a pattern, a leading `!` selecting negation.  Fails exactly
    /// when the remaining pattern does not compile, and then carries it.
    pub fn try_from(value: &str) -> (r: Result<Self, RegexError>)
        ensures
            r is Ok <==> regex_compiles(spec_stripped(value@)),
            r matches Result::Ok(m) ==> regex_pattern(m.regex) == spec_stripped(value@)
                && m.negate == spec_negated(value@),
            r matches Result::Err(e) ==> e.pattern@ == spec_stripped(value@),
    {
        let len = value.unicode_len();
        let (pattern, negate): (&str, bool) = if len > 0 && value.get_char(0) == '!' {
            let rest = value.substring_char(1, len);
            proof {
                assert(rest@ =~= value@.skip(1));
            }
            (rest, true)
        } else {
            (value, false)
        };
        match regex::Regex::new(pattern) {
            Result::Ok(regex) => Result::Ok(RegexMatch { regex, negate }),
            Result::Err(_) => Result::Err(RegexError { pattern: pattern.to_owned() }),
        }
    }
}

impl PartialEq for RegexMatch {
    /// Equality is by pattern text and negation flag: two differently
    /// spelled patterns with the same meaning are not equal.
    fn eq(&self, other: &Self) -> (r: bool) {
        str_eq(self.regex.as_str(), other.regex.as_str()) && self.negate == other.negate
    }
}

impl Eq for RegexMatch {

}

impl vstd::std_specs::cmp::PartialEqSpecImpl for RegexMatch {
    open spec fn obeys_eq_spec() -> bool {
        true
    }

    open spec fn eq_spec(&self, other: &Self) -> bool {
        regex_pattern(self.regex) == regex_pattern(other.regex) && self.negate == other.negate
    }
}

} // verus!
