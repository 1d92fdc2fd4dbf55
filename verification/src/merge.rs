//! The table compiler: merges an ordered list of rules into a read-only
//! lookup table from `(host, path)` keys to the effective header lists, one
//! for exact lookups and one for prefix fallbacks, then compacts the table by
//! dropping entries whose answer an ancestor entry already supplies.
//!
//! Every step is pinned to a specification-level pipeline ([`table_spec`]),
//! so the compiled table is a mathematical function of the rules' models:
//! compiling the same rules twice yields equal tables.

use vstd::prelude::*;

use crate::headers::{Header, HeaderV, IntoHeaders, Mergeable};
use crate::matching::{before, spec_before, MatchOracle, Specificity};
use crate::text::{seq_lt, str_eq, str_lt, str_starts_with};

verus! {

/// A rule: a pattern set and the payload it carries.
pub struct WithMatchRules<R, C> {
    pub match_rules: R,
    pub conf: C,
}

/// View of a table key: host and path as character sequences.
pub type KeyV = (Seq<char>, Seq<char>);

/// The effective configuration at one key.
#[derive(Debug)]
pub struct MergedConf {
    pub exact: Vec<Header>,
    pub prefix: Vec<Header>,
}

/// View of a [`MergedConf`].
#[verifier::ext_equal]
pub struct MergedConfView {
    pub exact: Seq<HeaderV>,
    pub prefix: Seq<HeaderV>,
}

impl View for MergedConf {
    type V = MergedConfView;

    open spec fn view(&self) -> MergedConfView {
        MergedConfView { exact: self.exact.deep_view(), prefix: self.prefix.deep_view() }
    }
}

impl DeepView for MergedConf {
    type V = MergedConfView;

    open spec fn deep_view(&self) -> MergedConfView {
        self.view()
    }
}

impl PartialEq for MergedConf {
    fn eq(&self, other: &Self) -> (r: bool) {
        header_vec_eq(&self.exact, &other.exact) && header_vec_eq(&self.prefix, &other.prefix)
    }
}

impl Eq for MergedConf {

}

impl vstd::std_specs::cmp::PartialEqSpecImpl for MergedConf {
    open spec fn obeys_eq_spec() -> bool {
        true
    }

    open spec fn eq_spec(&self, other: &Self) -> bool {
        self@ == other@
    }
}

/// A compiled table entry.
pub type TableEntry = ((String, String), MergedConf);

/// View of a table entry.
pub type TableEntryV = (KeyV, MergedConfView);

/// Strict order on headers: by name, then by value.
pub open spec fn hv_lt(a: HeaderV, b: HeaderV) -> bool {
    seq_lt(a.0, b.0) || (a.0 == b.0 && seq_lt(a.1, b.1))
}

/// Strict lexicographic order on keys: by host, then by path.
pub open spec fn key_lt(a: KeyV, b: KeyV) -> bool {
    seq_lt(a.0, b.0) || (a.0 == b.0 && seq_lt(a.1, b.1))
}

/// Insert header `x` into the ordered list `s`, after any entries it does
/// not strictly precede.
pub open spec fn insert_header(s: Seq<HeaderV>, x: HeaderV) -> Seq<HeaderV>
    decreases s.len(),
{
    if s.len() == 0 {
        seq![x]
    } else if hv_lt(x, s[0]) {
        seq![x] + s
    } else {
        seq![s[0]] + insert_header(s.drop_first(), x)
    }
}

/// Stable insertion sort of headers by `(name, value)`.
pub open spec fn sort_headers(s: Seq<HeaderV>) -> Seq<HeaderV>
    decreases s.len(),
{
    if s.len() == 0 {
        s
    } else {
        insert_header(sort_headers(s.drop_last()), s.last())
    }
}

/// Insert a ranked payload model into the ordered list `s`, after any
/// entries whose rank it does not strictly precede: ties keep rule order.
pub open spec fn insert_by_rank<M>(s: Seq<(Specificity, M)>, x: (Specificity, M)) -> Seq<
    (Specificity, M),
>
    decreases s.len(),
{
    if s.len() == 0 {
        seq![x]
    } else if spec_before(x.0, s[0].0) {
        seq![x] + s
    } else {
        seq![s[0]] + insert_by_rank(s.drop_first(), x)
    }
}

/// Stable insertion sort of ranked payload models, least specific first.
pub open spec fn sort_by_rank<M>(s: Seq<(Specificity, M)>) -> Seq<(Specificity, M)>
    decreases s.len(),
{
    if s.len() == 0 {
        s
    } else {
        insert_by_rank(sort_by_rank(s.drop_last()), s.last())
    }
}

/// Left fold of payload models in list order, each step absorbed into the
/// accumulated model.
pub open spec fn fold_models<C: Mergeable>(s: Seq<(Specificity, C::Model)>) -> Option<C::Model>
    decreases s.len(),
{
    if s.len() == 0 {
        Option::None
    } else if s.len() == 1 {
        Option::Some(s[0].1)
    } else {
        match fold_models::<C>(s.drop_last()) {
            Option::Some(m) => Option::Some(C::merged_model(m, s.last().1)),
            Option::None => Option::None,
        }
    }
}

/// The models of an executable match list.
pub open spec fn models_of<C: Mergeable>(s: Seq<(Specificity, C)>) -> Seq<(Specificity, C::Model)> {
    s.map_values(|p: (Specificity, C)| (p.0, p.1.model()))
}

/// The canonical header list for one key and mode: sort the collected
/// matches by rank (stable), fold-merge, project, and sort by name/value.
pub open spec fn merged_headers_spec<C: IntoHeaders>(l: Seq<(Specificity, C::Model)>) -> Seq<
    HeaderV,
> {
    match fold_models::<C>(sort_by_rank(l)) {
        Option::None => Seq::empty(),
        Option::Some(m) => sort_headers(C::hdrs_of(m)),
    }
}

/// The ranked payload models of the rules applying at the query, in rule
/// order.
pub open spec fn collected<R: MatchOracle, C: Mergeable>(
    rules: Seq<WithMatchRules<R, C>>,
    host: Seq<char>,
    path: Seq<char>,
    exact: bool,
) -> Seq<(Specificity, C::Model)>
    decreases rules.len(),
{
    if rules.len() == 0 {
        Seq::empty()
    } else {
        collected(rules.drop_last(), host, path, exact) + match rules.last().match_rules.match_spec(
            host,
            path,
            exact,
        ) {
            Option::Some(t) => seq![(t, rules.last().conf.model())],
            Option::None => Seq::<(Specificity, C::Model)>::empty(),
        }
    }
}

/// The effective configuration of one key.
pub open spec fn conf_for_key<R: MatchOracle, C: IntoHeaders>(
    rules: Seq<WithMatchRules<R, C>>,
    key: KeyV,
) -> MergedConfView {
    MergedConfView {
        exact: merged_headers_spec::<C>(collected(rules, key.0, key.1, true)),
        prefix: merged_headers_spec::<C>(collected(rules, key.0, key.1, false)),
    }
}

/// The pattern pairs of all rules, in rule order.
pub open spec fn all_pats<R: MatchOracle, C>(rules: Seq<WithMatchRules<R, C>>) -> Seq<KeyV>
    decreases rules.len(),
{
    if rules.len() == 0 {
        Seq::empty()
    } else {
        all_pats(rules.drop_last()) + rules.last().match_rules.patterns_spec()
    }
}

/// Record a host: non-empty hosts are collected once, in order of first
/// appearance.
pub open spec fn add_host(hs: Seq<Seq<char>>, h: Seq<char>) -> Seq<Seq<char>> {
    if h.len() == 0 || hs.contains(h) {
        hs
    } else {
        hs.push(h)
    }
}

/// The distinct non-empty hosts appearing in the patterns.
pub open spec fn hosts_of_pats(ps: Seq<KeyV>) -> Seq<Seq<char>>
    decreases ps.len(),
{
    if ps.len() == 0 {
        Seq::empty()
    } else {
        add_host(hosts_of_pats(ps.drop_last()), ps.last().0)
    }
}

/// Insert key `k` into the sorted duplicate-free key list `s`.
pub open spec fn insert_key(s: Seq<KeyV>, k: KeyV) -> Seq<KeyV>
    decreases s.len(),
{
    if s.len() == 0 {
        seq![k]
    } else if k == s[0] {
        s
    } else if key_lt(k, s[0]) {
        seq![k] + s
    } else {
        seq![s[0]] + insert_key(s.drop_first(), k)
    }
}

/// Insert `(h, path)` for every discovered host `h`.
pub open spec fn insert_cross(s: Seq<KeyV>, path: Seq<char>, hosts: Seq<Seq<char>>) -> Seq<KeyV>
    decreases hosts.len(),
{
    if hosts.len() == 0 {
        s
    } else {
        insert_key(insert_cross(s, path, hosts.drop_last()), (hosts.last(), path))
    }
}

/// Record one pattern in the key space: its own key, and, for an any-host
/// pattern, a key per discovered host.
pub open spec fn insert_pat(s: Seq<KeyV>, p: KeyV, hosts: Seq<Seq<char>>) -> Seq<KeyV> {
    let s1 = insert_key(s, p);
    if p.0.len() == 0 {
        insert_cross(s1, p.1, hosts)
    } else {
        s1
    }
}

/// The sorted, duplicate-free key space of the table: the global root plus
/// every pattern key, any-host patterns materialized across all hosts.
pub open spec fn keys_spec(ps: Seq<KeyV>, hosts: Seq<Seq<char>>) -> Seq<KeyV>
    decreases ps.len(),
{
    if ps.len() == 0 {
        seq![(Seq::<char>::empty(), Seq::<char>::empty())]
    } else {
        insert_pat(keys_spec(ps.drop_last(), hosts), ps.last(), hosts)
    }
}

/// The uncompacted table: one entry per key, in key order.
pub open spec fn table_pre<R: MatchOracle, C: IntoHeaders>(
    rules: Seq<WithMatchRules<R, C>>,
    keys: Seq<KeyV>,
) -> Seq<TableEntryV> {
    Seq::new(keys.len(), |i: int| (keys[i], conf_for_key(rules, keys[i])))
}

/// May entry `i` of the uncompacted table be dropped?  A host root may be
/// dropped when the global root gives the same answer; a path entry may be
/// dropped when its exact and prefix answers agree and the immediately
/// preceding entry is a same-host ancestor at a `/` boundary whose prefix
/// answer agrees.
pub open spec fn removable(t: Seq<TableEntryV>, i: int) -> bool {
    let k = t[i].0;
    let c = t[i].1;
    if k.1.len() == 0 {
        k.0.len() > 0 && t[0].0.0.len() == 0 && t[0].0.1.len() == 0 && c == t[0].1
    } else {
        let pk = t[i - 1].0;
        let pc = t[i - 1].1;
        c.exact == c.prefix && pk.0 == k.0 && pk.1.len() < k.1.len() && k.1.take(
            pk.1.len() as int,
        ) == pk.1 && k.1[pk.1.len() as int] == '/' && pc.prefix == c.prefix
    }
}

/// The entries kept by compaction, from index `i` on.  Entry 0, the global
/// root, is always kept; each later entry is judged against the original
/// uncompacted table, which is what the compaction pass sees when it walks
/// the table from the end.
pub open spec fn compact_from(t: Seq<TableEntryV>, i: int) -> Seq<TableEntryV>
    decreases t.len() - i,
{
    if i < 0 || i >= t.len() {
        Seq::empty()
    } else if i == 0 || !removable(t, i) {
        seq![t[i]] + compact_from(t, i + 1)
    } else {
        compact_from(t, i + 1)
    }
}

/// The compiled table of a rule list: a mathematical function of the rules'
/// patterns and payload models alone.
pub open spec fn table_spec<R: MatchOracle, C: IntoHeaders>(
    rules: Seq<WithMatchRules<R, C>>,
) -> Seq<TableEntryV> {
    let pats = all_pats(rules);
    let keys = keys_spec(pats, hosts_of_pats(pats));
    compact_from(table_pre(rules, keys), 0)
}

/// Executable equality of header lists, at the level of their views.
pub fn header_vec_eq(a: &Vec<Header>, b: &Vec<Header>) -> (r: bool)
    ensures
        r == (a.deep_view() == b.deep_view()),
{
    if a.len() != b.len() {
        assert(a.deep_view().len() != b.deep_view().len());
        return false;
    }
    let mut i: usize = 0;
    while i < a.len()
        invariant
            0 <= i <= a@.len(),
            a@.len() == b@.len(),
            forall|k: int| 0 <= k < i ==> a.deep_view()[k] == b.deep_view()[k],
        decreases a@.len() - i,
    {
        if !str_eq(a[i].0.as_str(), b[i].0.as_str()) || !str_eq(a[i].1.as_str(), b[i].1.as_str()) {
            assert(a.deep_view()[i as int] != b.deep_view()[i as int]);
            return false;
        }
        i = i + 1;
    }
    proof {
        assert(a.deep_view() =~= b.deep_view());
    }
    true
}

/// Executable strict header order.
fn header_lt(a: &Header, b: &Header) -> (r: bool)
    ensures
        r == hv_lt(a.deep_view(), b.deep_view()),
{
    if str_lt(a.0.as_str(), b.0.as_str()) {
        true
    } else if str_eq(a.0.as_str(), b.0.as_str()) {
        str_lt(a.1.as_str(), b.1.as_str())
    } else {
        false
    }
}

/// Inserting at the first position whose entry `x` strictly precedes is what
/// [`insert_header`] does.
proof fn lemma_insert_header_at(s: Seq<HeaderV>, x: HeaderV, j: int)
    requires
        0 <= j <= s.len(),
        forall|k: int| 0 <= k < j ==> !hv_lt(x, s[k]),
        j < s.len() ==> hv_lt(x, s[j]),
    ensures
        insert_header(s, x) == s.take(j) + seq![x] + s.skip(j),
    decreases j,
{
    if j == 0 {
        if s.len() == 0 {
            assert(insert_header(s, x) =~= s.take(0) + seq![x] + s.skip(0));
        } else {
            assert(insert_header(s, x) =~= s.take(0) + seq![x] + s.skip(0));
        }
    } else {
        assert(!hv_lt(x, s[0]));
        let rest = s.drop_first();
        assert(forall|k: int| 0 <= k < j - 1 ==> rest[k] == s[k + 1]);
        lemma_insert_header_at(rest, x, j - 1);
        assert(seq![s[0]] + (rest.take(j - 1) + seq![x] + rest.skip(j - 1)) =~= s.take(j) + seq![x]
            + s.skip(j));
    }
}

/// Inserting at the first position whose rank `x` strictly precedes is what
/// [`insert_by_rank`] does.
proof fn lemma_insert_by_rank_at<M>(s: Seq<(Specificity, M)>, x: (Specificity, M), j: int)
    requires
        0 <= j <= s.len(),
        forall|k: int| 0 <= k < j ==> !spec_before(x.0, s[k].0),
        j < s.len() ==> spec_before(x.0, s[j].0),
    ensures
        insert_by_rank(s, x) == s.take(j) + seq![x] + s.skip(j),
    decreases j,
{
    if j == 0 {
        assert(insert_by_rank(s, x) =~= s.take(0) + seq![x] + s.skip(0));
    } else {
        let rest = s.drop_first();
        assert(forall|k: int| 0 <= k < j - 1 ==> rest[k] == s[k + 1]);
        lemma_insert_by_rank_at(rest, x, j - 1);
        assert(seq![s[0]] + (rest.take(j - 1) + seq![x] + rest.skip(j - 1)) =~= s.take(j) + seq![x]
            + s.skip(j));
    }
}

/// Inserting at the first position holding the key, or the first position
/// the key strictly precedes, is what [`insert_key`] does.
proof fn lemma_insert_key_at(s: Seq<KeyV>, k: KeyV, j: int)
    requires
        0 <= j <= s.len(),
        forall|idx: int| 0 <= idx < j ==> s[idx] != k && !key_lt(k, s[idx]),
        j < s.len() ==> (s[j] == k || key_lt(k, s[j])),
    ensures
        insert_key(s, k) == if j < s.len() && s[j] == k {
            s
        } else {
            s.take(j) + seq![k] + s.skip(j)
        },
    decreases j,
{
    if j == 0 {
        if s.len() == 0 || (s[0] != k && key_lt(k, s[0])) {
            assert(insert_key(s, k) =~= s.take(0) + seq![k] + s.skip(0));
        }
    } else {
        let rest = s.drop_first();
        assert(forall|idx: int| 0 <= idx < j - 1 ==> rest[idx] == s[idx + 1]);
        lemma_insert_key_at(rest, k, j - 1);
        if j < s.len() && s[j] == k {
            assert(insert_key(s, k) =~= s);
        } else {
            assert(seq![s[0]] + (rest.take(j - 1) + seq![k] + rest.skip(j - 1)) =~= s.take(j)
                + seq![k] + s.skip(j));
        }
    }
}

/// Sort an owned match list by rank, stably: equal ranks keep their order.
fn sort_matched<C: Mergeable>(list: Vec<(Specificity, C)>) -> (r: Vec<(Specificity, C)>)
    ensures
        models_of(r@) == sort_by_rank(models_of(list@)),
{
    let ghost orig = list@;
    let mut rest = list;
    let mut out: Vec<(Specificity, C)> = Vec::new();
    proof {
        assert(rest@ =~= orig.skip(0));
        assert(models_of(out@) =~= Seq::<(Specificity, C::Model)>::empty());
        assert(models_of(orig.take(0)) =~= Seq::<(Specificity, C::Model)>::empty());
    }
    while rest.len() > 0
        invariant
            rest@.len() <= orig.len(),
            rest@ =~= orig.skip(orig.len() - rest@.len()),
            models_of(out@) == sort_by_rank(
                models_of(orig.take(orig.len() - rest@.len())),
            ),
        decreases rest@.len(),
    {
        let ghost done = orig.len() - rest@.len();
        let x = rest.remove(0);
        proof {
            assert(x == orig[done]);
            assert(rest@ =~= orig.skip(done + 1));
        }
        let mut j: usize = 0;
        while j < out.len() && !before(&x.0, &out[j].0)
            invariant
                0 <= j <= out@.len(),
                forall|k: int| 0 <= k < j ==> !spec_before(x.0, out@[k].0),
            decreases out@.len() - j,
        {
            j = j + 1;
        }
        let ghost pre = out@;
        proof {
            assert forall|k: int| 0 <= k < j implies !spec_before(
                (x.0, x.1.model()).0,
                models_of(pre)[k].0,
            ) by {
                assert(models_of(pre)[k] == (pre[k].0, pre[k].1.model()));
            }
            if (j as int) < pre.len() {
                assert(models_of(pre)[j as int] == (pre[j as int].0, pre[j as int].1.model()));
            }
            lemma_insert_by_rank_at(models_of(pre), (x.0, x.1.model()), j as int);
        }
        out.insert(j, x);
        proof {
            assert(models_of(out@) =~= models_of(pre).take(j as int) + seq![(x.0, x.1.model())]
                + models_of(pre).skip(j as int));
            assert(orig.take(done + 1).drop_last() =~= orig.take(done));
            assert(models_of(orig.take(done + 1)).drop_last() =~= models_of(orig.take(done)));
            assert(models_of(orig.take(done + 1)).last() == (x.0, x.1.model()));
            assert(models_of(orig.take(done + 1)) =~= models_of(orig.take(done)).push(
                (x.0, x.1.model()),
            ));
        }
    }
    proof {
        assert(orig.take(orig.len() as int) =~= orig);
    }
    out
}

/// Fold-merge a rank-sorted match list and project it to a canonical,
/// name/value-sorted header list.
fn merged_headers<C: Mergeable + IntoHeaders>(list: Vec<(Specificity, C)>) -> (r: Vec<Header>)
    ensures
        r.deep_view() == merged_headers_spec::<C>(models_of(list@)),
{
    let ghost lm = models_of(list@);
    let sorted = sort_matched(list);
    let ghost sm = models_of(sorted@);
    let mut rest = sorted;
    let mut acc: Option<C> = Option::None;
    proof {
        assert(models_of(rest@) =~= sm.skip(0));
    }
    while rest.len() > 0
        invariant
            sm == sort_by_rank(lm),
            rest@.len() <= sm.len(),
            models_of(rest@) =~= sm.skip(sm.len() - rest@.len()),
            match acc {
                Option::None => sm.len() == rest@.len(),
                Option::Some(c) => sm.len() > rest@.len() && Option::Some(c.model())
                    == fold_models::<C>(sm.take(sm.len() - rest@.len())),
            },
        decreases rest@.len(),
    {
        let ghost done = sm.len() - rest@.len();
        let ghost prev = rest@;
        let x = rest.remove(0);
        proof {
            assert(x == prev[0]);
            assert(models_of(prev)[0] == (prev[0].0, prev[0].1.model()));
            assert((x.0, x.1.model()) == sm[done]);
            assert(rest@ =~= prev.drop_first());
            assert forall|k: int| 0 <= k < rest@.len() implies models_of(rest@)[k] == sm.skip(
                done + 1,
            )[k] by {
                assert(models_of(rest@)[k] == (rest@[k].0, rest@[k].1.model()));
                assert(models_of(prev)[k + 1] == (prev[k + 1].0, prev[k + 1].1.model()));
                assert(models_of(prev)[k + 1] == sm.skip(done)[k + 1]);
            }
            assert(models_of(rest@) =~= sm.skip(done + 1));
        }
        acc = match acc {
            Option::None => Option::Some(x.1),
            Option::Some(mut c) => {
                c.merge_with(x.1);
                Option::Some(c)
            },
        };
        proof {
            assert(sm.take(done + 1).drop_last() =~= sm.take(done));
            assert(sm.take(done + 1).last() == sm[done]);
        }
    }
    proof {
        assert(sm.take(sm.len() as int) =~= sm);
    }
    match acc {
        Option::None => {
            let r: Vec<Header> = Vec::new();
            proof {
                assert(r.deep_view() =~= Seq::<HeaderV>::empty());
            }
            r
        },
        Option::Some(c) => sort_header_vec(c.into_headers()),
    }
}

/// Sort a header list by `(name, value)`.
fn sort_header_vec(list: Vec<Header>) -> (r: Vec<Header>)
    ensures
        r.deep_view() == sort_headers(list.deep_view()),
{
    let ghost orig = list.deep_view();
    let mut rest = list;
    let mut out: Vec<Header> = Vec::new();
    proof {
        assert(rest.deep_view() =~= orig.skip(0));
        assert(out.deep_view() =~= Seq::<HeaderV>::empty());
        assert(orig.take(0) =~= Seq::<HeaderV>::empty());
    }
    while rest.len() > 0
        invariant
            rest@.len() <= orig.len(),
            rest.deep_view() =~= orig.skip(orig.len() - rest@.len()),
            out.deep_view() == sort_headers(orig.take(orig.len() - rest@.len())),
        decreases rest@.len(),
    {
        let ghost done = orig.len() - rest@.len();
        let ghost prevv = rest@;
        let ghost prevdv = rest.deep_view();
        let x = rest.remove(0);
        proof {
            assert(x == prevv[0]);
            assert(prevdv[0] == prevv[0].deep_view());
            assert(x.deep_view() == orig[done]);
            assert forall|k: int| 0 <= k < rest@.len() implies rest.deep_view()[k] == orig.skip(
                done + 1,
            )[k] by {
                assert(rest.deep_view()[k] == rest@[k].deep_view());
                assert(rest@[k] == prevv[k + 1]);
                assert(prevdv[k + 1] == prevv[k + 1].deep_view());
                assert(prevdv[k + 1] == orig.skip(done)[k + 1]);
            }
            assert(rest.deep_view() =~= orig.skip(done + 1));
        }
        let mut j: usize = 0;
        while j < out.len() && !header_lt(&x, &out[j])
            invariant
                0 <= j <= out@.len(),
                forall|k: int| 0 <= k < j ==> !hv_lt(x.deep_view(), out.deep_view()[k]),
            decreases out@.len() - j,
        {
            j = j + 1;
        }
        let ghost pre = out.deep_view();
        proof {
            lemma_insert_header_at(pre, x.deep_view(), j as int);
        }
        out.insert(j, x);
        proof {
            assert(out.deep_view() =~= pre.take(j as int) + seq![orig[done]] + pre.skip(j as int));
            assert(orig.take(done + 1).drop_last() =~= orig.take(done));
        }
    }
    proof {
        assert(orig.take(orig.len() as int) =~= orig);
    }
    out
}

/// Executable strict key order.
fn key_lt_exec(a: &(String, String), b: &(String, String)) -> (r: bool)
    ensures
        r == key_lt(a.deep_view(), b.deep_view()),
{
    if str_lt(a.0.as_str(), b.0.as_str()) {
        true
    } else if str_eq(a.0.as_str(), b.0.as_str()) {
        str_lt(a.1.as_str(), b.1.as_str())
    } else {
        false
    }
}

/// Insert a key into the sorted duplicate-free key list.
fn insert_key_vec(list: Vec<(String, String)>, k: (String, String)) -> (r: Vec<(String, String)>)
    ensures
        r.deep_view() == insert_key(list.deep_view(), k.deep_view()),
{
    let mut v = list;
    let ghost s = v.deep_view();
    let ghost kv = k.deep_view();
    let mut j: usize = 0;
    while j < v.len()
        invariant
            0 <= j <= v@.len(),
            v@.len() == s.len(),
            v.deep_view() == s,
            s == list.deep_view(),
            kv == k.deep_view(),
            forall|idx: int| 0 <= idx < j ==> s[idx] != kv && !key_lt(kv, s[idx]),
        decreases v@.len() - j,
    {
        proof {
            assert(s[j as int] == (v@[j as int].0@, v@[j as int].1@));
            assert(kv == (k.0@, k.1@));
        }
        let same = str_eq(v[j].0.as_str(), k.0.as_str()) && str_eq(v[j].1.as_str(), k.1.as_str());
        if same {
            proof {
                assert(s[j as int] == kv);
                lemma_insert_key_at(s, kv, j as int);
                assert(insert_key(s, kv) == s);
            }
            return v;
        }
        if key_lt_exec(&k, &v[j]) {
            proof {
                lemma_insert_key_at(s, kv, j as int);
            }
            let ghost pre = v@;
            v.insert(j, k);
            proof {
                assert forall|idx: int| 0 <= idx < v@.len() implies v.deep_view()[idx] == (s.take(
                    j as int,
                ) + seq![kv] + s.skip(j as int))[idx] by {
                    assert(v.deep_view()[idx] == v@[idx].deep_view());
                    if idx < j {
                        assert(v@[idx] == pre[idx]);
                    } else if idx > j {
                        assert(v@[idx] == pre[idx - 1]);
                    }
                }
                assert(v.deep_view() =~= s.take(j as int) + seq![kv] + s.skip(j as int));
            }
            return v;
        }
        j = j + 1;
    }
    proof {
        lemma_insert_key_at(s, kv, s.len() as int);
    }
    let ghost pre = v@;
    v.push(k);
    proof {
        assert forall|idx: int| 0 <= idx < v@.len() implies v.deep_view()[idx] == (s.take(
            s.len() as int,
        ) + seq![kv] + s.skip(s.len() as int))[idx] by {
            assert(v.deep_view()[idx] == v@[idx].deep_view());
            if idx < pre.len() {
                assert(v@[idx] == pre[idx]);
            }
        }
        assert(v.deep_view() =~= s.take(s.len() as int) + seq![kv] + s.skip(s.len() as int));
    }
    v
}

/// Executable membership test for a host list.
fn host_vec_contains(v: &Vec<String>, h: &str) -> (r: bool)
    ensures
        r == v.deep_view().contains(h@),
{
    let mut i: usize = 0;
    while i < v.len()
        invariant
            0 <= i <= v@.len(),
            forall|k: int| 0 <= k < i ==> v.deep_view()[k] != h@,
        decreases v@.len() - i,
    {
        if str_eq(v[i].as_str(), h) {
            assert(v.deep_view()[i as int] == h@);
            return true;
        }
        i = i + 1;
    }
    false
}

/// Inserting a key never displaces the global root from the head of the key
/// list, and never empties it.
pub(crate) proof fn lemma_insert_key_root(s: Seq<KeyV>, k: KeyV)
    requires
        s.len() > 0,
        s[0] == (Seq::<char>::empty(), Seq::<char>::empty()),
    ensures
        insert_key(s, k).len() > 0,
        insert_key(s, k)[0] == s[0],
{
    if k != s[0] {
        assert(!seq_lt(k.0, Seq::<char>::empty()));
        assert(!seq_lt(k.1, Seq::<char>::empty()));
        assert(!key_lt(k, s[0]));
    }
}

/// Cross-host insertion keeps the global root at the head.
pub(crate) proof fn lemma_insert_cross_root(s: Seq<KeyV>, path: Seq<char>, hosts: Seq<Seq<char>>)
    requires
        s.len() > 0,
        s[0] == (Seq::<char>::empty(), Seq::<char>::empty()),
    ensures
        insert_cross(s, path, hosts).len() > 0,
        insert_cross(s, path, hosts)[0] == s[0],
    decreases hosts.len(),
{
    if hosts.len() > 0 {
        lemma_insert_cross_root(s, path, hosts.drop_last());
        lemma_insert_key_root(insert_cross(s, path, hosts.drop_last()), (hosts.last(), path));
    }
}

/// The key space always holds the global root, at index 0.
pub(crate) proof fn lemma_keys_root(ps: Seq<KeyV>, hosts: Seq<Seq<char>>)
    ensures
        keys_spec(ps, hosts).len() > 0,
        keys_spec(ps, hosts)[0] == (Seq::<char>::empty(), Seq::<char>::empty()),
    decreases ps.len(),
{
    if ps.len() > 0 {
        lemma_keys_root(ps.drop_last(), hosts);
        let prev = keys_spec(ps.drop_last(), hosts);
        lemma_insert_key_root(prev, ps.last());
        if ps.last().0.len() == 0 {
            lemma_insert_cross_root(insert_key(prev, ps.last()), ps.last().1, hosts);
        }
    }
}

/// Compile an ordered rule list into the compacted lookup table.
///
/// The result is pinned to [`table_spec`], a function of the rules' patterns
/// and payload models alone, so compilation is deterministic; and its first
/// entry is always the global root key `("", "")`, which compaction never
/// removes.
pub fn into_merged<R: MatchOracle, C: Mergeable + IntoHeaders>(
    rules: Vec<WithMatchRules<R, C>>,
) -> (t: Vec<TableEntry>)
    ensures
        t.deep_view() == table_spec(rules@),
        t@.len() >= 1,
        t.deep_view()[0].0 == (Seq::<char>::empty(), Seq::<char>::empty()),
{
    // Collect every pattern of every rule.
    let mut pats: Vec<(String, String)> = Vec::new();
    let mut i: usize = 0;
    proof {
        assert(pats.deep_view() =~= all_pats(rules@.take(0)));
    }
    while i < rules.len()
        invariant
            0 <= i <= rules@.len(),
            pats.deep_view() =~= all_pats(rules@.take(i as int)),
        decreases rules@.len() - i,
    {
        let ps = rules[i].match_rules.patterns();
        let mut j: usize = 0;
        proof {
            assert(ps.deep_view().len() == ps@.len());
            assert(pats.deep_view() =~= all_pats(rules@.take(i as int)) + ps.deep_view().take(0));
        }
        while j < ps.len()
            invariant
                0 <= j <= ps@.len(),
                ps.deep_view() == rules@[i as int].match_rules.patterns_spec(),
                ps.deep_view().len() == ps@.len(),
                i < rules@.len(),
                pats@.len() == all_pats(rules@.take(i as int)).len() + j,
                pats.deep_view() =~= all_pats(rules@.take(i as int)) + ps.deep_view().take(
                    j as int,
                ),
            decreases ps@.len() - j,
        {
            let ghost pre = pats@;
            let ghost predv = pats.deep_view();
            pats.push((ps[j].0.clone(), ps[j].1.clone()));
            proof {
                assert(ps.deep_view()[j as int] == ps@[j as int].deep_view());
                assert forall|k: int| 0 <= k < pats@.len() implies pats.deep_view()[k] == (all_pats(
                    rules@.take(i as int),
                ) + ps.deep_view().take(j + 1))[k] by {
                    assert(pats.deep_view()[k] == pats@[k].deep_view());
                    if k < pre.len() {
                        assert(pats@[k] == pre[k]);
                        assert(predv[k] == pre[k].deep_view());
                        assert(predv[k] == (all_pats(rules@.take(i as int))
                            + ps.deep_view().take(j as int))[k]);
                    }
                }
                assert(pats.deep_view() =~= all_pats(rules@.take(i as int)) + ps.deep_view().take(
                    j + 1,
                ));
            }
            j = j + 1;
        }
        proof {
            assert(ps.deep_view().take(ps@.len() as int) =~= ps.deep_view());
            assert(rules@.take(i + 1).drop_last() =~= rules@.take(i as int));
            assert(rules@.take(i + 1).last() == rules@[i as int]);
        }
        i = i + 1;
    }
    proof {
        assert(rules@.take(rules@.len() as int) =~= rules@);
    }
    let ghost patsdv = pats.deep_view();

    // Collect the distinct non-empty hosts.
    let mut hosts: Vec<String> = Vec::new();
    let mut p: usize = 0;
    proof {
        assert(hosts.deep_view() =~= hosts_of_pats(patsdv.take(0)));
    }
    while p < pats.len()
        invariant
            0 <= p <= pats@.len(),
            patsdv == pats.deep_view(),
            hosts@.len() == hosts_of_pats(patsdv.take(p as int)).len(),
            hosts.deep_view() =~= hosts_of_pats(patsdv.take(p as int)),
        decreases pats@.len() - p,
    {
        proof {
            assert(patsdv.take(p + 1).drop_last() =~= patsdv.take(p as int));
            assert(patsdv.take(p + 1).last() == patsdv[p as int]);
            assert(patsdv[p as int] == (pats@[p as int].0@, pats@[p as int].1@));
        }
        if !pats[p].0.as_str().is_empty() && !host_vec_contains(&hosts, pats[p].0.as_str()) {
            let ghost pre = hosts@;
            hosts.push(pats[p].0.clone());
            proof {
                assert forall|k: int| 0 <= k < hosts@.len() implies hosts.deep_view()[k]
                    == hosts_of_pats(patsdv.take(p + 1))[k] by {
                    assert(hosts.deep_view()[k] == hosts@[k]@);
                    if k < pre.len() {
                        assert(hosts@[k] == pre[k]);
                    }
                }
                assert(hosts.deep_view() =~= hosts_of_pats(patsdv.take(p + 1)));
            }
        }
        p = p + 1;
    }
    proof {
        assert(patsdv.take(patsdv.len() as int) =~= patsdv);
    }
    let ghost hostsdv = hosts.deep_view();

    // Build the sorted, duplicate-free key space, seeded with the global
    // root so that it is present whatever the rules say.
    let mut keys: Vec<(String, String)> = Vec::new();
    keys.push((String::new(), String::new()));
    proof {
        assert(keys.deep_view() =~= keys_spec(patsdv.take(0), hostsdv));
    }
    let mut kp: usize = 0;
    while kp < pats.len()
        invariant
            0 <= kp <= pats@.len(),
            patsdv == pats.deep_view(),
            hostsdv == hosts.deep_view(),
            keys.deep_view() == keys_spec(patsdv.take(kp as int), hostsdv),
        decreases pats@.len() - kp,
    {
        let ghost patv = patsdv[kp as int];
        proof {
            assert(patv == (pats@[kp as int].0@, pats@[kp as int].1@));
        }
        keys = insert_key_vec(keys, (pats[kp].0.clone(), pats[kp].1.clone()));
        if pats[kp].0.as_str().is_empty() {
            let mut h: usize = 0;
            while h < hosts.len()
                invariant
                    0 <= h <= hosts@.len(),
                    kp < pats@.len(),
                    patsdv == pats.deep_view(),
                    hostsdv == hosts.deep_view(),
                    patv == patsdv[kp as int],
                    patv.0.len() == 0,
                    keys.deep_view() == insert_cross(
                        insert_key(keys_spec(patsdv.take(kp as int), hostsdv), patv),
                        patv.1,
                        hostsdv.take(h as int),
                    ),
                decreases hosts@.len() - h,
            {
                proof {
                    assert(hostsdv.take(h + 1).drop_last() =~= hostsdv.take(h as int));
                    assert(hostsdv.take(h + 1).last() == hostsdv[h as int]);
                    assert(hostsdv[h as int] == hosts@[h as int]@);
                }
                keys = insert_key_vec(keys, (hosts[h].clone(), pats[kp].1.clone()));
                h = h + 1;
            }
            proof {
                assert(hostsdv.take(hostsdv.len() as int) =~= hostsdv);
            }
        }
        proof {
            assert(patsdv.take(kp + 1).drop_last() =~= patsdv.take(kp as int));
            assert(patsdv.take(kp + 1).last() == patsdv[kp as int]);
        }
        kp = kp + 1;
    }
    proof {
        assert(patsdv.take(patsdv.len() as int) =~= patsdv);
    }
    let ghost keysdv = keys.deep_view();
    proof {
        lemma_keys_root(patsdv, hostsdv);
    }

    // Merge the applying rules at every key, in both modes.
    let mut entries: Vec<TableEntry> = Vec::new();
    let mut k: usize = 0;
    proof {
        assert(entries.deep_view() =~= table_pre(rules@, keysdv).take(0));
    }
    while k < keys.len()
        invariant
            0 <= k <= keys@.len(),
            keysdv == keys.deep_view(),
            entries@.len() == k,
            entries.deep_view() =~= table_pre(rules@, keysdv).take(k as int),
        decreases keys@.len() - k,
    {
        let ghost kv = keysdv[k as int];
        proof {
            assert(kv == (keys@[k as int].0@, keys@[k as int].1@));
        }
        let mut lex: Vec<(Specificity, C)> = Vec::new();
        let mut lpre: Vec<(Specificity, C)> = Vec::new();
        let mut r: usize = 0;
        proof {
            assert(models_of(lex@) =~= collected(rules@.take(0), kv.0, kv.1, true));
            assert(models_of(lpre@) =~= collected(rules@.take(0), kv.0, kv.1, false));
        }
        while r < rules.len()
            invariant
                0 <= r <= rules@.len(),
                k < keys@.len(),
                kv == (keys@[k as int].0@, keys@[k as int].1@),
                lex@.len() == collected(rules@.take(r as int), kv.0, kv.1, true).len(),
                lpre@.len() == collected(rules@.take(r as int), kv.0, kv.1, false).len(),
                models_of(lex@) =~= collected(rules@.take(r as int), kv.0, kv.1, true),
                models_of(lpre@) =~= collected(rules@.take(r as int), kv.0, kv.1, false),
            decreases rules@.len() - r,
        {
            proof {
                assert(rules@.take(r + 1).drop_last() =~= rules@.take(r as int));
                assert(rules@.take(r + 1).last() == rules@[r as int]);
            }
            match rules[r].match_rules.matches(keys[k].0.as_str(), keys[k].1.as_str(), true) {
                Option::Some(t) => {
                    let ghost pre = lex@;
                    lex.push((t, rules[r].conf.duplicate()));
                    proof {
                        assert forall|x: int| 0 <= x < lex@.len() implies models_of(lex@)[x]
                            == (collected(rules@.take(r as int), kv.0, kv.1, true) + seq![
                            (t, rules@[r as int].conf.model()),
                        ])[x] by {
                            assert(models_of(lex@)[x] == (lex@[x].0, lex@[x].1.model()));
                            if x < pre.len() {
                                assert(lex@[x] == pre[x]);
                                assert(models_of(pre)[x] == (pre[x].0, pre[x].1.model()));
                            }
                        }
                        assert(models_of(lex@) =~= collected(rules@.take(r as int), kv.0, kv.1, true)
                            + seq![(t, rules@[r as int].conf.model())]);
                    }
                },
                Option::None => {
                    proof {
                        assert(models_of(lex@) =~= collected(rules@.take(r as int), kv.0, kv.1, true)
                            + Seq::<(Specificity, C::Model)>::empty());
                    }
                },
            }
            match rules[r].match_rules.matches(keys[k].0.as_str(), keys[k].1.as_str(), false) {
                Option::Some(t) => {
                    let ghost pre = lpre@;
                    lpre.push((t, rules[r].conf.duplicate()));
                    proof {
                        assert forall|x: int| 0 <= x < lpre@.len() implies models_of(lpre@)[x]
                            == (collected(rules@.take(r as int), kv.0, kv.1, false) + seq![
                            (t, rules@[r as int].conf.model()),
                        ])[x] by {
                            assert(models_of(lpre@)[x] == (lpre@[x].0, lpre@[x].1.model()));
                            if x < pre.len() {
                                assert(lpre@[x] == pre[x]);
                                assert(models_of(pre)[x] == (pre[x].0, pre[x].1.model()));
                            }
                        }
                        assert(models_of(lpre@) =~= collected(
                            rules@.take(r as int),
                            kv.0,
                            kv.1,
                            false,
                        ) + seq![(t, rules@[r as int].conf.model())]);
                    }
                },
                Option::None => {
                    proof {
                        assert(models_of(lpre@) =~= collected(
                            rules@.take(r as int),
                            kv.0,
                            kv.1,
                            false,
                        ) + Seq::<(Specificity, C::Model)>::empty());
                    }
                },
            }
            r = r + 1;
        }
        proof {
            assert(rules@.take(rules@.len() as int) =~= rules@);
        }
        let exact = merged_headers(lex);
        let prefix = merged_headers(lpre);
        let ghost pre = entries@;
        entries.push(((keys[k].0.clone(), keys[k].1.clone()), MergedConf { exact, prefix }));
        proof {
            assert forall|x: int| 0 <= x < entries@.len() implies entries.deep_view()[x]
                == table_pre(rules@, keysdv).take(k + 1)[x] by {
                assert(entries.deep_view()[x] == entries@[x].deep_view());
                if x < pre.len() {
                    assert(entries@[x] == pre[x]);
                } else {
                    assert(entries@[x].deep_view() == (kv, conf_for_key(rules@, kv)));
                }
            }
            assert(entries.deep_view() =~= table_pre(rules@, keysdv).take(k + 1));
        }
        k = k + 1;
    }
    proof {
        assert(table_pre(rules@, keysdv).take(keysdv.len() as int) =~= table_pre(rules@, keysdv));
    }
    let ghost pretab = table_pre(rules@, keysdv);

    // Compaction: walk the table from the end, dropping entries whose answer
    // an ancestor already supplies.
    if entries.len() > 1 {
        let mut ci: usize = entries.len() - 1;
        proof {
            assert(pretab.take(ci + 1) + compact_from(pretab, ci + 1) =~= pretab);
            assert(entries.deep_view() =~= pretab.take(ci + 1) + compact_from(pretab, ci + 1));
        }
        while ci >= 1
            invariant
                1 <= ci + 1 <= pretab.len(),
                pretab == table_pre(rules@, keysdv),
                entries.deep_view() =~= pretab.take(ci as int + 1) + compact_from(
                    pretab,
                    ci as int + 1,
                ),
            decreases ci,
        {
            proof {
                assert(entries.deep_view().len() == entries@.len());
                assert(entries.deep_view().len() == ci + 1 + compact_from(
                    pretab,
                    ci as int + 1,
                ).len());
                assert(entries.deep_view()[ci as int] == pretab[ci as int]);
                assert(entries.deep_view()[ci as int - 1] == pretab[ci as int - 1]);
                assert(entries.deep_view()[0] == pretab[0]);
                assert(entries.deep_view()[ci as int] == entries@[ci as int].deep_view());
                assert(entries.deep_view()[ci - 1] == entries@[ci - 1].deep_view());
                assert(entries.deep_view()[0] == entries@[0].deep_view());
            }
            let drop = if entries[ci].0 .1.as_str().is_empty() {
                !entries[ci].0 .0.as_str().is_empty() && entries[0].0 .0.as_str().is_empty()
                    && entries[0].0 .1.as_str().is_empty() && header_vec_eq(
                    &entries[ci].1.exact,
                    &entries[0].1.exact,
                ) && header_vec_eq(&entries[ci].1.prefix, &entries[0].1.prefix)
            } else {
                let plen = entries[ci - 1].0 .1.as_str().unicode_len();
                let clen = entries[ci].0 .1.as_str().unicode_len();
                header_vec_eq(&entries[ci].1.exact, &entries[ci].1.prefix) && str_eq(
                    entries[ci - 1].0 .0.as_str(),
                    entries[ci].0 .0.as_str(),
                ) && plen < clen && str_starts_with(
                    entries[ci].0 .1.as_str(),
                    entries[ci - 1].0 .1.as_str(),
                ) && entries[ci].0 .1.as_str().get_char(plen) == '/' && header_vec_eq(
                    &entries[ci - 1].1.prefix,
                    &entries[ci].1.prefix,
                )
            };
            proof {
                if drop {
                    assert(removable(pretab, ci as int)) by {
                        assert(pretab[ci as int].1.exact == entries@[ci as int].1.exact.deep_view());
                        assert(pretab[ci as int].1.prefix
                            == entries@[ci as int].1.prefix.deep_view());
                        assert(pretab[0].1.exact == entries@[0].1.exact.deep_view());
                        assert(pretab[0].1.prefix == entries@[0].1.prefix.deep_view());
                        assert(pretab[ci - 1].1.prefix == entries@[ci - 1].1.prefix.deep_view());
                        if entries@[ci as int].0 .1@.len() == 0 {
                            assert(pretab[ci as int].1 =~= pretab[0].1);
                        } else {
                            if entries@[ci as int].1.exact.deep_view()
                                == entries@[ci as int].1.prefix.deep_view() {
                                assert(pretab[ci as int].1.exact =~= pretab[ci as int].1.prefix);
                            }
                        }
                    }
                } else {
                    assert(!removable(pretab, ci as int)) by {
                        if pretab[ci as int].0 .1.len() == 0 {
                            if removable(pretab, ci as int) {
                                assert(pretab[ci as int].1.exact == pretab[0].1.exact);
                                assert(pretab[ci as int].1.prefix == pretab[0].1.prefix);
                            }
                        } else {
                            if removable(pretab, ci as int) {
                                assert(pretab[ci as int].1.exact == pretab[ci as int].1.prefix);
                                assert(pretab[ci - 1].1.prefix == pretab[ci as int].1.prefix);
                            }
                        }
                    }
                }
            }
            if drop {
                let ghost pre = entries@;
                let ghost predv = entries.deep_view();
                entries.remove(ci);
                proof {
                    assert forall|x: int| 0 <= x < entries@.len() implies entries.deep_view()[x]
                        == (pretab.take(ci as int) + compact_from(pretab, ci as int))[x] by {
                        assert(entries.deep_view()[x] == entries@[x].deep_view());
                        if x < ci {
                            assert(entries@[x] == pre[x]);
                            assert(predv[x] == pre[x].deep_view());
                            assert(predv[x] == (pretab.take(ci as int + 1) + compact_from(
                                pretab,
                                ci as int + 1,
                            ))[x]);
                        } else {
                            assert(entries@[x] == pre[x + 1]);
                            assert(predv[x + 1] == pre[x + 1].deep_view());
                            assert(predv[x + 1] == (pretab.take(ci as int + 1) + compact_from(
                                pretab,
                                ci as int + 1,
                            ))[x + 1]);
                        }
                        assert(compact_from(pretab, ci as int) == compact_from(
                            pretab,
                            ci as int + 1,
                        ));
                    }
                    assert(entries.deep_view() =~= pretab.take(ci as int) + compact_from(
                        pretab,
                        ci as int,
                    ));
                }
            } else {
                proof {
                    assert(compact_from(pretab, ci as int) == seq![pretab[ci as int]]
                        + compact_from(pretab, ci as int + 1));
                    assert(entries.deep_view() =~= pretab.take(ci as int) + compact_from(
                        pretab,
                        ci as int,
                    ));
                }
            }
            ci = ci - 1;
        }
        proof {
            assert(pretab.take(1) =~= seq![pretab[0]]);
            assert(compact_from(pretab, 0) == seq![pretab[0]] + compact_from(pretab, 1));
            assert(entries.deep_view() =~= compact_from(pretab, 0));
        }
    } else {
        proof {
            assert(pretab.len() == 1);
            assert(pretab.take(1) =~= seq![pretab[0]]);
            assert(compact_from(pretab, 0) == seq![pretab[0]] + compact_from(pretab, 1));
            assert(compact_from(pretab, 1) =~= Seq::<TableEntryV>::empty());
            assert(entries.deep_view() =~= compact_from(pretab, 0));
        }
    }
    proof {
        assert(entries.deep_view()[0] == pretab[0]);
        assert(pretab[0].0 == keysdv[0]);
    }
    entries
}

/// Compiling one rule list always gives one answer: the table is a function
/// of the rules' patterns and payload models.
pub proof fn lemma_compile_deterministic<R: MatchOracle, C: IntoHeaders>(
    rules: Seq<WithMatchRules<R, C>>,
    t1: Seq<TableEntryV>,
    t2: Seq<TableEntryV>,
)
    requires
        t1 == table_spec(rules),
        t2 == table_spec(rules),
    ensures
        t1 == t2,
{
}

/// Insertion only adds the inserted header to the list's members.
proof fn lemma_insert_header_contains(s: Seq<HeaderV>, x: HeaderV, y: HeaderV)
    ensures
        insert_header(s, x).contains(y) <==> (s.contains(y) || y == x),
    decreases s.len(),
{
    let r = insert_header(s, x);
    if s.len() == 0 {
        assert(r =~= seq![x]);
        if y == x {
            assert(r[0] == y);
        }
        if r.contains(y) {
            let i = choose|i: int| 0 <= i < r.len() && r[i] == y;
            assert(y == x);
        }
    } else if hv_lt(x, s[0]) {
        assert(r == seq![x] + s);
        if r.contains(y) {
            let i = choose|i: int| 0 <= i < r.len() && r[i] == y;
            if i == 0 {
                assert(y == x);
            } else {
                assert(s[i - 1] == y);
                assert(s.contains(y));
            }
        }
        if y == x {
            assert(r[0] == y);
            assert(r.contains(y));
        }
        if s.contains(y) {
            let i = choose|i: int| 0 <= i < s.len() && s[i] == y;
            assert(r[i + 1] == y);
            assert(r.contains(y));
        }
    } else {
        let rest = insert_header(s.drop_first(), x);
        lemma_insert_header_contains(s.drop_first(), x, y);
        assert(r == seq![s[0]] + rest);
        if r.contains(y) {
            let i = choose|i: int| 0 <= i < r.len() && r[i] == y;
            if i == 0 {
                assert(s[0] == y);
                assert(s.contains(y));
            } else {
                assert(rest[i - 1] == y);
                assert(rest.contains(y));
                if s.drop_first().contains(y) {
                    let k = choose|k: int| 0 <= k < s.drop_first().len() && s.drop_first()[k] == y;
                    assert(s[k + 1] == y);
                    assert(s.contains(y));
                }
            }
        }
        if y == x {
            assert(rest.contains(y));
            let k = choose|k: int| 0 <= k < rest.len() && rest[k] == y;
            assert(r[k + 1] == y);
            assert(r.contains(y));
        }
        if s.contains(y) {
            let i = choose|i: int| 0 <= i < s.len() && s[i] == y;
            if i == 0 {
                assert(r[0] == y);
            } else {
                assert(s.drop_first()[i - 1] == y);
                assert(s.drop_first().contains(y));
                assert(rest.contains(y));
                let k = choose|k: int| 0 <= k < rest.len() && rest[k] == y;
                assert(r[k + 1] == y);
            }
            assert(r.contains(y));
        }
    }
}

/// The canonical sort keeps exactly the members of the list.
proof fn lemma_sort_headers_contains(s: Seq<HeaderV>, y: HeaderV)
    ensures
        sort_headers(s).contains(y) <==> s.contains(y),
    decreases s.len(),
{
    if s.len() > 0 {
        lemma_sort_headers_contains(s.drop_last(), y);
        lemma_insert_header_contains(sort_headers(s.drop_last()), s.last(), y);
        if s.contains(y) {
            let i = choose|i: int| 0 <= i < s.len() && s[i] == y;
            if i < s.len() - 1 {
                assert(s.drop_last()[i] == y);
                assert(s.drop_last().contains(y));
            }
        }
        if s.drop_last().contains(y) {
            let i = choose|i: int| 0 <= i < s.drop_last().len() && s.drop_last()[i] == y;
            assert(s[i] == y);
            assert(s.contains(y));
        }
        if y == s.last() {
            assert(s[s.len() - 1] == y);
            assert(s.contains(y));
        }
    }
}

/// The effective configuration of two rules that both apply at a location.
/// Sorting two matches is concrete, so this is the two-rule core of the
/// merge: the fold applies the less specific payload first.
proof fn lemma_two_rule_table(
    a: (Specificity, Seq<HeaderV>),
    b: (Specificity, Seq<HeaderV>),
)
    ensures
        merged_headers_spec::<crate::headers::HeadersConf>(seq![a, b]) == if spec_before(b.0, a.0) {
            sort_headers(crate::headers::HeadersConf::merged_model(b.1, a.1))
        } else {
            sort_headers(crate::headers::HeadersConf::merged_model(a.1, b.1))
        },
{
    let l = seq![a, b];
    let e = Seq::<(Specificity, Seq<HeaderV>)>::empty();
    assert(l.drop_last() =~= seq![a]);
    assert(l.last() == b);
    assert(seq![a].drop_last() =~= e);
    assert(seq![a].last() == a);
    assert(sort_by_rank(e) == e);
    assert(insert_by_rank(e, a) =~= seq![a]);
    assert(sort_by_rank(seq![a]) =~= seq![a]);
    let sorted = insert_by_rank(seq![a], b);
    assert(sort_by_rank(l) == sorted);
    if spec_before(b.0, a.0) {
        assert(sorted =~= seq![b] + seq![a]);
        assert(sorted =~= seq![b, a]);
        assert(sorted.drop_last() =~= seq![b]);
        assert(sorted.last() == a);
        assert(fold_models::<crate::headers::HeadersConf>(seq![b]) == Option::Some(b.1));
        assert(fold_models::<crate::headers::HeadersConf>(sorted) == Option::Some(
            crate::headers::HeadersConf::merged_model(b.1, a.1),
        ));
    } else {
        assert(seq![a].drop_first() =~= e);
        assert(sorted =~= seq![a] + insert_by_rank(e, b));
        assert(sorted =~= seq![a, b]);
        assert(sorted.drop_last() =~= seq![a]);
        assert(sorted.last() == b);
        assert(fold_models::<crate::headers::HeadersConf>(seq![a]) == Option::Some(a.1));
        assert(fold_models::<crate::headers::HeadersConf>(sorted) == Option::Some(
            crate::headers::HeadersConf::merged_model(a.1, b.1),
        ));
    }
}

/// Specificity: when two rules both apply at a location and both set the
/// header `n`, the compiled result carries the value from the rule with the
/// stronger match rank; a rank tie goes to the later rule, which the fold
/// applies last.
pub proof fn lemma_specificity(
    a: (Specificity, Seq<HeaderV>),
    b: (Specificity, Seq<HeaderV>),
    n: Seq<char>,
    va: Seq<char>,
    vb: Seq<char>,
)
    requires
        crate::headers::last_value(a.1, n) == Option::Some(va),
        crate::headers::last_value(b.1, n) == Option::Some(vb),
    ensures
        spec_before(b.0, a.0) ==> merged_headers_spec::<crate::headers::HeadersConf>(
            seq![a, b],
        ).contains((n, va)),
        !spec_before(b.0, a.0) ==> merged_headers_spec::<crate::headers::HeadersConf>(
            seq![a, b],
        ).contains((n, vb)),
{
    lemma_two_rule_table(a, b);
    crate::headers::lemma_last_value_some_iff(a.1, n);
    crate::headers::lemma_last_value_some_iff(b.1, n);
    if spec_before(b.0, a.0) {
        let m = crate::headers::HeadersConf::merged_model(b.1, a.1);
        crate::headers::lemma_merged_value(b.1, a.1, n);
        crate::headers::lemma_last_value_mem(m, n, va);
        lemma_sort_headers_contains(m, (n, va));
    } else {
        let m = crate::headers::HeadersConf::merged_model(a.1, b.1);
        crate::headers::lemma_merged_value(a.1, b.1, n);
        crate::headers::lemma_last_value_mem(m, n, vb);
        lemma_sort_headers_contains(m, (n, vb));
    }
}

/// When two rules both apply at a location and set disjoint header names,
/// the header of each appears in the compiled result with its own value.
pub proof fn lemma_disjoint_headers(
    a: (Specificity, Seq<HeaderV>),
    b: (Specificity, Seq<HeaderV>),
    n: Seq<char>,
    v: Seq<char>,
)
    ensures
        crate::headers::last_value(a.1, n) == Option::Some(v) && !crate::headers::has_name(b.1, n)
            ==> merged_headers_spec::<crate::headers::HeadersConf>(seq![a, b]).contains((n, v)),
        crate::headers::last_value(b.1, n) == Option::Some(v) && !crate::headers::has_name(a.1, n)
            ==> merged_headers_spec::<crate::headers::HeadersConf>(seq![a, b]).contains((n, v)),
{
    lemma_two_rule_table(a, b);
    crate::headers::lemma_last_value_some_iff(a.1, n);
    crate::headers::lemma_last_value_some_iff(b.1, n);
    crate::headers::lemma_merged_value(a.1, b.1, n);
    crate::headers::lemma_merged_value(b.1, a.1, n);
    let mab = crate::headers::HeadersConf::merged_model(a.1, b.1);
    let mba = crate::headers::HeadersConf::merged_model(b.1, a.1);
    if crate::headers::last_value(a.1, n) == Option::Some(v) && !crate::headers::has_name(b.1, n) {
        crate::headers::lemma_last_value_mem(mab, n, v);
        crate::headers::lemma_last_value_mem(mba, n, v);
        lemma_sort_headers_contains(mab, (n, v));
        lemma_sort_headers_contains(mba, (n, v));
    }
    if crate::headers::last_value(b.1, n) == Option::Some(v) && !crate::headers::has_name(a.1, n) {
        crate::headers::lemma_last_value_mem(mab, n, v);
        crate::headers::lemma_last_value_mem(mba, n, v);
        lemma_sort_headers_contains(mab, (n, v));
        lemma_sort_headers_contains(mba, (n, v));
    }
}

/// Look a key up in the compiled table.
pub fn lookup_key<'a>(t: &'a Vec<TableEntry>, host: &str, path: &str) -> (r: Option<
    &'a MergedConf,
>)
    ensures
        match r {
            Option::Some(c) => exists|i: int|
                0 <= i < t.deep_view().len() && t.deep_view()[i] == ((host@, path@), c@),
            Option::None => forall|i: int|
                0 <= i < t.deep_view().len() ==> t.deep_view()[i].0 != (host@, path@),
        },
{
    let mut i: usize = 0;
    while i < t.len()
        invariant
            0 <= i <= t@.len(),
            forall|k: int| 0 <= k < i ==> t.deep_view()[k].0 != (host@, path@),
        decreases t@.len() - i,
    {
        if str_eq(t[i].0 .0.as_str(), host) && str_eq(t[i].0 .1.as_str(), path) {
            proof {
                assert(t.deep_view()[i as int] == ((host@, path@), t@[i as int].1.deep_view()));
            }
            return Option::Some(&t[i].1);
        }
        proof {
            assert(t.deep_view()[i as int].0 != (host@, path@));
        }
        i = i + 1;
    }
    Option::None
}

} // verus!
