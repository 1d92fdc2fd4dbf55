//! The data model of URI rewrite rules: which paths a rule applies to, the
//! optional regex restrictions, the rewrite target template, and the kind of
//! rewrite performed.

use vstd::prelude::*;

use crate::interpolation::{parse_parts, VariableInterpolation};
use crate::regex_match::RegexMatch;

verus! {

/// URI rewriting type.
#[derive(Debug, Clone, Copy, PartialEq, Eq, Structural)]
pub enum RewriteType {
    /// An internal rewrite, a URI change for internal processing only.
    Internal,
    /// A temporary-redirect response.
    Redirect,
    /// A permanent-redirect response.
    Permanent,
}

/// The characters left after removing leading `/`.
pub open spec fn trim_lead(s: Seq<char>) -> Seq<char>
    decreases s.len(),
{
    if s.len() > 0 && s[0] == '/' {
        trim_lead(s.drop_first())
    } else {
        s
    }
}

/// The characters left after removing trailing `/`.
pub open spec fn trim_trail(s: Seq<char>) -> Seq<char>
    decreases s.len(),
{
    if s.len() > 0 && s.last() == '/' {
        trim_trail(s.drop_last())
    } else {
        s
    }
}

/// Does the pattern text select a prefix match: a trailing `/*`, or `*`
/// alone?
pub open spec fn prefix_spec(s: Seq<char>) -> bool {
    (s.len() >= 2 && s[s.len() - 2] == '/' && s[s.len() - 1] == '*') || (s.len() == 1 && s[0]
        == '*')
}

/// The normalized path of the pattern text: the `/*` or `*` marker removed,
/// then surrounding `/` trimmed.
pub open spec fn path_spec(s: Seq<char>) -> Seq<char> {
    let body = if s.len() >= 2 && s[s.len() - 2] == '/' && s[s.len() - 1] == '*' {
        s.take(s.len() - 2)
    } else if s.len() == 1 && s[0] == '*' {
        Seq::<char>::empty()
    } else {
        s
    };
    trim_trail(trim_lead(body))
}

/// A path or set of paths a rewrite rule applies to.  By default an exact
/// path match is required; a pattern like `/path/*` selects a prefix match
/// covering the path and everything beneath it.
#[derive(Debug)]
pub struct PathMatcher {
    /// The normalized path, without surrounding `/`.
    pub path: String,
    /// `true` when the pattern covers everything beneath the path too.
    pub prefix: bool,
}

/// Trim leading and trailing `/` from a string slice.
fn trim_slashes(s: &str) -> (r: String)
    ensures
        r@ == trim_trail(trim_lead(s@)),
{
    let len = s.unicode_len();
    let mut lo: usize = 0;
    proof {
        assert(s@.skip(0) =~= s@);
    }
    while lo < len && s.get_char(lo) == '/'
        invariant
            0 <= lo <= len,
            len == s@.len(),
            trim_lead(s@) == trim_lead(s@.skip(lo as int)),
        decreases len - lo,
    {
        proof {
            assert(s@.skip(lo as int).drop_first() =~= s@.skip(lo + 1));
        }
        lo = lo + 1;
    }
    proof {
        assert(trim_lead(s@.skip(lo as int)) == s@.skip(lo as int));
    }
    let mut hi: usize = len;
    proof {
        assert(s@.skip(lo as int).take(len - lo) =~= s@.skip(lo as int));
    }
    while hi > lo && s.get_char(hi - 1) == '/'
        invariant
            lo <= hi <= len,
            len == s@.len(),
            trim_lead(s@) == s@.skip(lo as int),
            trim_trail(s@.skip(lo as int)) == trim_trail(s@.skip(lo as int).take(hi - lo)),
        decreases hi,
    {
        proof {
            assert(s@.skip(lo as int).take(hi - lo).last() == s@[hi - 1]);
            assert(s@.skip(lo as int).take(hi - lo).drop_last() =~= s@.skip(lo as int).take(
                hi - 1 - lo,
            ));
        }
        hi = hi - 1;
    }
    proof {
        if hi > lo {
            assert(s@.skip(lo as int).take(hi - lo).last() == s@[hi - 1]);
        }
        assert(trim_trail(s@.skip(lo as int).take(hi - lo)) == s@.skip(lo as int).take(hi - lo));
        assert(s@.skip(lo as int).take(hi - lo) =~= s@.subrange(lo as int, hi as int));
    }
    s.substring_char(lo, hi).to_owned()
}

impl PathMatcher {
    /// Parse a path pattern.
    pub fn parse(value: &str) -> (r: Self)
        ensures
            r.path@ == path_spec(value@),
            r.prefix == prefix_spec(value@),
    {
        let len = value.unicode_len();
        if len >= 2 && value.get_char(len - 2) == '/' && value.get_char(len - 1) == '*' {
            let body = value.substring_char(0, len - 2);
            proof {
                assert(body@ =~= value@.take(value@.len() - 2));
            }
            PathMatcher { path: trim_slashes(body), prefix: true }
        } else if len == 1 && value.get_char(0) == '*' {
            proof {
                assert(trim_lead(Seq::<char>::empty()) == Seq::<char>::empty());
                assert(trim_trail(Seq::<char>::empty()) == Seq::<char>::empty());
            }
            PathMatcher { path: String::new(), prefix: true }
        } else {
            PathMatcher { path: trim_slashes(value), prefix: false }
        }
    }
}

impl From<&str> for PathMatcher {
    /// Parse a path pattern.
    fn from(value: &str) -> Self {
        PathMatcher::parse(value)
    }
}

impl vstd::std_specs::convert::FromSpecImpl<&str> for PathMatcher {
    open spec fn obeys_from_spec() -> bool {
        false
    }

    open spec fn from_spec(value: &str) -> Self {
        arbitrary()
    }
}

/// A rewrite rule resulting in either a request URI change or a redirect.
#[derive(Debug)]
pub struct RewriteRule {
    /// Path or set of paths to rewrite.
    pub from: PathMatcher,
    /// Additional regular expression restricting matching paths; a leading
    /// `!` negates it.
    pub from_regex: Option<RegexMatch>,
    /// Additional regular expression restricting matching query strings; a
    /// leading `!` negates it.
    pub query_regex: Option<RegexMatch>,
    /// New URI to set on match; `${name}` placeholders are resolved against
    /// request data when the rule fires.
    pub to: VariableInterpolation,
    /// The kind of rewrite performed.
    pub rewrite_type: RewriteType,
}

impl Default for RewriteRule {
    /// The default rule: every path, rewritten internally to `/`.
    fn default() -> (r: Self)
        ensures
            r.from.path@.len() == 0,
            r.from.prefix,
            r.from_regex is None,
            r.query_regex is None,
            r.to@ == parse_parts("/"@),
            r.rewrite_type == RewriteType::Internal,
    {
        let from = PathMatcher::parse("/*");
        proof {
            reveal_strlit("/*");
            assert(prefix_spec("/*"@));
            assert("/*"@.take("/*"@.len() - 2) =~= Seq::<char>::empty());
            assert(trim_lead(Seq::<char>::empty()) == Seq::<char>::empty());
            assert(trim_trail(Seq::<char>::empty()) == Seq::<char>::empty());
        }
        RewriteRule {
            from,
            from_regex: Option::None,
            query_regex: Option::None,
            to: VariableInterpolation::parse("/"),
            rewrite_type: RewriteType::Internal,
        }
    }
}

/// Configuration file settings of the rewrite module.
#[derive(Debug)]
pub struct RewriteConf {
    /// A list of rewrite rules.
    pub rewrite_rules: Vec<RewriteRule>,
}

impl Default for RewriteConf {
    /// An empty rule list.
    fn default() -> (r: Self)
        ensures
            r.rewrite_rules@.len() == 0,
    {
        RewriteConf { rewrite_rules: Vec::new() }
    }
}

} // verus!
