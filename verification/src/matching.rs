//! Host/path match patterns and the specificity oracle the table compiler
//! consults.  A rule carries included and excluded patterns; a query asks
//! whether the rule applies at a `(host, path)` location, either as an exact
//! match or as a prefix match covering everything beneath the location.

use vstd::prelude::*;

use crate::text::{str_eq, str_starts_with};

verus! {

/// Specificity rank of a match, compared lexicographically: an explicit host
/// beats the any-host wildcard, then a longer pattern path beats a shorter
/// one, then an exact path match beats a prefix match.
#[derive(Clone, Copy, PartialEq, Eq, Structural, Debug)]
pub struct Specificity {
    pub host_specific: bool,
    pub path_len: usize,
    pub exact: bool,
}

/// Strict "less specific than" order on specificity ranks.
pub open spec fn spec_before(a: Specificity, b: Specificity) -> bool {
    (!a.host_specific && b.host_specific) || (a.host_specific == b.host_specific && (a.path_len
        < b.path_len || (a.path_len == b.path_len && !a.exact && b.exact)))
}

/// Executable counterpart of [`spec_before`].
pub fn before(a: &Specificity, b: &Specificity) -> (r: bool)
    ensures
        r == spec_before(*a, *b),
{
    (!a.host_specific && b.host_specific) || (a.host_specific == b.host_specific && (a.path_len
        < b.path_len || (a.path_len == b.path_len && !a.exact && b.exact)))
}

/// One host/path pattern.  An empty host means "any host".  A prefix pattern
/// covers its path and everything beneath it at `/` boundaries; a non-prefix
/// pattern covers its path alone.
#[derive(Debug)]
pub struct MatchRule {
    pub host: String,
    pub path: String,
    pub prefix: bool,
}

/// Does `pre` cover `path` as a directory prefix: it is empty, equal to
/// `path`, or a leading portion of `path` ending at a `/` boundary.
pub open spec fn is_path_prefix(pre: Seq<char>, path: Seq<char>) -> bool {
    pre.len() == 0 || pre == path || (pre.len() < path.len() && path.take(pre.len() as int) == pre
        && path[pre.len() as int] == '/')
}

/// Does pattern `p` apply at `(host, path)` for the given query mode?
pub open spec fn pat_matches(p: MatchRule, host: Seq<char>, path: Seq<char>, exact: bool) -> bool {
    let host_ok = p.host@.len() == 0 || p.host@ == host;
    let path_ok = if p.prefix {
        is_path_prefix(p.path@, path)
    } else {
        exact && p.path@ == path
    };
    host_ok && path_ok
}

/// Specificity rank of pattern `p`.
pub open spec fn token_of(p: MatchRule) -> Specificity {
    Specificity {
        host_specific: p.host@.len() > 0,
        path_len: p.path@.len() as usize,
        exact: !p.prefix,
    }
}

/// Fold step: keep the more specific of the best rank so far and the rank of
/// `p` if `p` applies; ties keep the earlier pattern.
pub open spec fn step_best(
    acc: Option<Specificity>,
    p: MatchRule,
    host: Seq<char>,
    path: Seq<char>,
    exact: bool,
) -> Option<Specificity> {
    if pat_matches(p, host, path, exact) {
        match acc {
            Option::None => Option::Some(token_of(p)),
            Option::Some(u) => if spec_before(u, token_of(p)) {
                Option::Some(token_of(p))
            } else {
                Option::Some(u)
            },
        }
    } else {
        acc
    }
}

/// Rank of the most specific pattern in `ps` applying at the query, if any.
pub open spec fn best_match(
    ps: Seq<MatchRule>,
    host: Seq<char>,
    path: Seq<char>,
    exact: bool,
) -> Option<Specificity>
    decreases ps.len(),
{
    if ps.len() == 0 {
        Option::None
    } else {
        step_best(best_match(ps.drop_last(), host, path, exact), ps.last(), host, path, exact)
    }
}

/// Executable check that pattern `p` applies at the query.
pub fn pattern_applies(p: &MatchRule, host: &str, path: &str, exact: bool) -> (r: bool)
    ensures
        r == pat_matches(*p, host@, path@, exact),
{
    let host_ok = p.host.as_str().is_empty() || str_eq(p.host.as_str(), host);
    if !host_ok {
        return false;
    }
    if p.prefix {
        let plen = p.path.as_str().unicode_len();
        let slen = path.unicode_len();
        p.path.as_str().is_empty() || str_eq(p.path.as_str(), path) || (plen < slen
            && str_starts_with(path, p.path.as_str()) && path.get_char(plen) == '/')
    } else {
        exact && str_eq(p.path.as_str(), path)
    }
}

/// Executable specificity rank of `p`.
pub fn rank_of(p: &MatchRule) -> (t: Specificity)
    ensures
        t == token_of(*p),
{
    Specificity {
        host_specific: !p.host.as_str().is_empty(),
        path_len: p.path.as_str().unicode_len(),
        exact: !p.prefix,
    }
}

/// Executable scan for the most specific applying pattern in `ps`.
fn best_of(ps: &Vec<MatchRule>, host: &str, path: &str, exact: bool) -> (r: Option<Specificity>)
    ensures
        r == best_match(ps@, host@, path@, exact),
{
    let mut acc: Option<Specificity> = Option::None;
    let mut i: usize = 0;
    while i < ps.len()
        invariant
            0 <= i <= ps@.len(),
            acc == best_match(ps@.take(i as int), host@, path@, exact),
        decreases ps@.len() - i,
    {
        proof {
            assert(ps@.take(i + 1).drop_last() =~= ps@.take(i as int));
            assert(ps@.take(i + 1).last() == ps@[i as int]);
        }
        if pattern_applies(&ps[i], host, path, exact) {
            let t = rank_of(&ps[i]);
            acc = match acc {
                Option::None => Option::Some(t),
                Option::Some(u) => if before(&u, &t) {
                    Option::Some(t)
                } else {
                    Option::Some(u)
                },
            };
        }
        i = i + 1;
    }
    proof {
        assert(ps@.take(ps@.len() as int) =~= ps@);
    }
    acc
}

/// The interface the table compiler needs from a rule's pattern set: the
/// literal `(host, path)` pairs of its patterns, and an oracle answering
/// whether the rule applies at a location, together with a specificity rank
/// comparable against other rules at the same location.
pub trait MatchOracle: Sized {
    /// Literal `(host, path)` pairs of every pattern of the rule.
    spec fn patterns_spec(&self) -> Seq<(Seq<char>, Seq<char>)>;

    /// The rank of the match at the query, or `None` when the rule does not
    /// apply there.
    spec fn match_spec(&self, host: Seq<char>, path: Seq<char>, exact: bool) -> Option<Specificity>;

    /// The pattern pairs, as owned strings.
    fn patterns(&self) -> (v: Vec<(String, String)>)
        ensures
            v.deep_view() == self.patterns_spec(),
    ;

    /// Query the oracle at `(host, path)` in the given mode.
    fn matches(&self, host: &str, path: &str, exact: bool) -> (r: Option<Specificity>)
        ensures
            r == self.match_spec(host@, path@, exact),
    ;
}

/// A rule's included and excluded pattern sets.  The rule applies at a query
/// when some included pattern applies and its rank strictly beats the rank of
/// every applying excluded pattern.
#[derive(Debug)]
pub struct MatchRules {
    pub included: Vec<MatchRule>,
    pub excluded: Vec<MatchRule>,
}

impl MatchOracle for MatchRules {
    open spec fn patterns_spec(&self) -> Seq<(Seq<char>, Seq<char>)> {
        (self.included@ + self.excluded@).map_values(|p: MatchRule| (p.host@, p.path@))
    }

    open spec fn match_spec(&self, host: Seq<char>, path: Seq<char>, exact: bool) -> Option<
        Specificity,
    > {
        match best_match(self.included@, host, path, exact) {
            Option::None => Option::None,
            Option::Some(t) => match best_match(self.excluded@, host, path, exact) {
                Option::None => Option::Some(t),
                Option::Some(u) => if spec_before(u, t) {
                    Option::Some(t)
                } else {
                    Option::None
                },
            },
        }
    }

    fn patterns(&self) -> (v: Vec<(String, String)>)
    {
        let mut v: Vec<(String, String)> = Vec::new();
        let mut i: usize = 0;
        while i < self.included.len()
            invariant
                0 <= i <= self.included@.len(),
                v@.len() == i,
                v.deep_view() =~= self.included@.take(i as int).map_values(
                    |p: MatchRule| (p.host@, p.path@),
                ),
            decreases self.included@.len() - i,
        {
            let ghost pre = v@;
            v.push((self.included[i].host.clone(), self.included[i].path.clone()));
            proof {
                let f = |p: MatchRule| (p.host@, p.path@);
                let goal = self.included@.take(i + 1).map_values(f);
                assert forall|k: int| 0 <= k < v@.len() implies v.deep_view()[k] == goal[k] by {
                    assert(goal[k] == f(self.included@.take(i + 1)[k]));
                    if k < i {
                        assert(v@[k] == pre[k]);
                        assert(self.included@.take(i as int).map_values(f)[k] == f(
                            self.included@.take(i as int)[k],
                        ));
                    } else {
                        assert(v@[k] == (self.included@[k].host, self.included@[k].path));
                    }
                }
                assert(v.deep_view() =~= goal);
            }
            i = i + 1;
        }
        let mut j: usize = 0;
        while j < self.excluded.len()
            invariant
                0 <= j <= self.excluded@.len(),
                v@.len() == self.included@.len() + j,
                v.deep_view() =~= (self.included@ + self.excluded@.take(j as int)).map_values(
                    |p: MatchRule| (p.host@, p.path@),
                ),
            decreases self.excluded@.len() - j,
        {
            let ghost pre = v@;
            v.push((self.excluded[j].host.clone(), self.excluded[j].path.clone()));
            proof {
                let f = |p: MatchRule| (p.host@, p.path@);
                let goal = (self.included@ + self.excluded@.take(j + 1)).map_values(f);
                let n = self.included@.len();
                assert forall|k: int| 0 <= k < v@.len() implies v.deep_view()[k] == goal[k] by {
                    assert(goal[k] == f((self.included@ + self.excluded@.take(j + 1))[k]));
                    if k < n + j {
                        assert(v@[k] == pre[k]);
                        assert((self.included@ + self.excluded@.take(j as int)).map_values(f)[k]
                            == f((self.included@ + self.excluded@.take(j as int))[k]));
                    } else {
                        assert(v@[k] == (self.excluded@[j as int].host, self.excluded@[
                            j as int].path));
                        assert((self.included@ + self.excluded@.take(j + 1))[k] == self.excluded@[
                            j as int]);
                    }
                }
                assert(v.deep_view() =~= goal);
            }
            j = j + 1;
        }
        proof {
            assert(self.included@ + self.excluded@.take(self.excluded@.len() as int) =~= self.included@
                + self.excluded@);
            assert(self.included@.take(self.included@.len() as int) =~= self.included@);
        }
        v
    }

    fn matches(&self, host: &str, path: &str, exact: bool) -> (r: Option<Specificity>)
    {
        match best_of(&self.included, host, path, exact) {
            Option::None => Option::None,
            Option::Some(t) => match best_of(&self.excluded, host, path, exact) {
                Option::None => Option::Some(t),
                Option::Some(u) => if before(&u, &t) {
                    Option::Some(t)
                } else {
                    Option::None
                },
            },
        }
    }
}

} // verus!
