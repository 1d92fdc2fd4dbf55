//! The request-time ancestor walk over a compiled table, and the proof that
//! compaction preserves its answers: for every key of the uncompacted table,
//! walking the compacted table yields that key's prefix configuration.
//!
//! The proof covers tables sorted by key whose paths do not begin with `/`;
//! a path with a leading `/` can be dropped against a host root whose answer
//! the host-fallback walk does not reproduce, an acknowledged limit of the
//! compaction heuristic.

use vstd::prelude::*;

use crate::headers::{HeaderV, IntoHeaders};
use crate::matching::MatchOracle;
use crate::merge::{
    all_pats, compact_from, hosts_of_pats, insert_cross, insert_key, key_lt, keys_spec,
    lemma_keys_root, removable, table_pre, table_spec, KeyV, MergedConfView, TableEntryV,
    WithMatchRules,
};
use crate::text::seq_lt;

verus! {

/// Is some entry of `t` keyed by `k`?
pub open spec fn key_in(t: Seq<TableEntryV>, k: KeyV) -> bool {
    exists|i: int| 0 <= i < t.len() && t[i].0 == k
}

/// The configuration of the first entry keyed by `k`.
pub open spec fn entry_for(t: Seq<TableEntryV>, k: KeyV) -> MergedConfView
    decreases t.len(),
{
    if t.len() == 0 {
        arbitrary()
    } else if t[0].0 == k {
        t[0].1
    } else {
        entry_for(t.drop_first(), k)
    }
}

/// When every entry keyed `k` carries the same configuration, that is what
/// [`entry_for`] reports.
proof fn lemma_entry_for_unique(t: Seq<TableEntryV>, k: KeyV, m: int)
    requires
        0 <= m < t.len(),
        t[m].0 == k,
        forall|i: int| 0 <= i < t.len() && t[i].0 == k ==> t[i].1 == t[m].1,
    ensures
        entry_for(t, k) == t[m].1,
    decreases t.len(),
{
    if t[0].0 == k {
    } else {
        let rest = t.drop_first();
        assert(rest[m - 1] == t[m]);
        assert forall|i: int| 0 <= i < rest.len() && rest[i].0 == k implies rest[i].1 == rest[m
            - 1].1 by {
            assert(rest[i] == t[i + 1]);
        }
        lemma_entry_for_unique(rest, k, m - 1);
    }
}

/// Position of the last `/` in `p`.
pub open spec fn last_slash(p: Seq<char>) -> Option<int>
    decreases p.len(),
{
    if p.len() == 0 {
        Option::None
    } else if p.last() == '/' {
        Option::Some(p.len() - 1)
    } else {
        last_slash(p.drop_last())
    }
}

/// The parent path of `p`: up to the last `/`, or empty.
pub open spec fn parent_of(p: Seq<char>) -> Seq<char> {
    match last_slash(p) {
        Option::Some(m) => p.take(m),
        Option::None => Seq::empty(),
    }
}

/// Walk `p` backward at `/` boundaries under host `h` until a present key
/// is found.
pub open spec fn walk_host(t: Seq<TableEntryV>, h: Seq<char>, p: Seq<char>) -> Option<
    MergedConfView,
>
    decreases p.len(),
{
    if key_in(t, (h, p)) {
        Option::Some(entry_for(t, (h, p)))
    } else if p.len() == 0 {
        Option::None
    } else if parent_of(p).len() < p.len() {
        walk_host(t, h, parent_of(p))
    } else {
        Option::None
    }
}

/// The full ancestor walk: under the request's host first, then, if
/// unresolved, under the any-host key space.
pub open spec fn walk_lookup(t: Seq<TableEntryV>, h: Seq<char>, p: Seq<char>) -> Option<
    MergedConfView,
> {
    match walk_host(t, h, p) {
        Option::Some(c) => Option::Some(c),
        Option::None => walk_host(t, Seq::empty(), p),
    }
}

/// Does the walk answer carry this prefix configuration?
pub open spec fn gives_prefix(o: Option<MergedConfView>, pr: Seq<HeaderV>) -> bool {
    match o {
        Option::Some(c) => c.prefix == pr,
        Option::None => false,
    }
}

/// A table sorted strictly by key.
pub open spec fn table_sorted(t: Seq<TableEntryV>) -> bool {
    forall|a: int, b: int| 0 <= a < b < t.len() ==> key_lt(t[a].0, t[b].0)
}

/// No key's path begins with `/`.
pub open spec fn no_leading_slash(t: Seq<TableEntryV>) -> bool {
    forall|j: int| 0 <= j < t.len() && t[j].0.1.len() > 0 ==> t[j].0.1[0] != '/'
}

proof fn lemma_seq_lt_irrefl(a: Seq<char>)
    ensures
        !seq_lt(a, a),
    decreases a.len(),
{
    if a.len() > 0 {
        lemma_seq_lt_irrefl(a.drop_first());
    }
}

proof fn lemma_seq_lt_trans(a: Seq<char>, b: Seq<char>, c: Seq<char>)
    requires
        seq_lt(a, b),
        seq_lt(b, c),
    ensures
        seq_lt(a, c),
    decreases a.len() + b.len() + c.len(),
{
    if a.len() > 0 {
        if a[0] == b[0] && b[0] == c[0] {
            lemma_seq_lt_trans(a.drop_first(), b.drop_first(), c.drop_first());
        }
    }
}

proof fn lemma_key_lt_irrefl(k: KeyV)
    ensures
        !key_lt(k, k),
{
    lemma_seq_lt_irrefl(k.0);
    lemma_seq_lt_irrefl(k.1);
}

proof fn lemma_key_lt_trans(a: KeyV, b: KeyV, c: KeyV)
    requires
        key_lt(a, b),
        key_lt(b, c),
    ensures
        key_lt(a, c),
{
    if seq_lt(a.0, b.0) && seq_lt(b.0, c.0) {
        lemma_seq_lt_trans(a.0, b.0, c.0);
    } else if a.0 == b.0 && b.0 == c.0 {
        lemma_seq_lt_trans(a.1, b.1, c.1);
    }
}

/// A proper prefix sorts strictly before the string it begins.
proof fn lemma_prefix_lt(a: Seq<char>, b: Seq<char>)
    requires
        a.len() < b.len(),
        b.take(a.len() as int) == a,
    ensures
        seq_lt(a, b),
    decreases a.len(),
{
    if a.len() > 0 {
        assert(b.take(a.len() as int)[0] == b[0]);
        assert(a[0] == b[0]);
        assert(b.drop_first().take(a.len() - 1) =~= b.take(a.len() as int).drop_first());
        lemma_prefix_lt(a.drop_first(), b.drop_first());
    }
}

/// In a sorted table, keys identify entries.
proof fn lemma_keys_unique(t: Seq<TableEntryV>, a: int, b: int)
    requires
        table_sorted(t),
        0 <= a < t.len(),
        0 <= b < t.len(),
        t[a].0 == t[b].0,
    ensures
        a == b,
{
    if a < b || b < a {
        lemma_key_lt_irrefl(t[a].0);
    }
}

/// No key strictly between two adjacent entries occurs in a sorted table.
proof fn lemma_adjacent_absent(t: Seq<TableEntryV>, i: int, k: KeyV)
    requires
        table_sorted(t),
        1 <= i < t.len(),
        key_lt(t[i - 1].0, k),
        key_lt(k, t[i].0),
    ensures
        !key_in(t, k),
{
    if key_in(t, k) {
        let j = choose|j: int| 0 <= j < t.len() && t[j].0 == k;
        if j <= i - 1 {
            if j < i - 1 {
                lemma_key_lt_trans(t[j].0, t[i - 1].0, k);
            }
            lemma_key_lt_irrefl(k);
        } else {
            if j > i {
                lemma_key_lt_trans(k, t[i].0, t[j].0);
            }
            lemma_key_lt_irrefl(k);
        }
    }
}

/// Every entry of the compacted table is a kept entry of the original, and
/// every kept entry survives.
proof fn lemma_compact_mem(t: Seq<TableEntryV>, i0: int)
    requires
        0 <= i0,
    ensures
        forall|x: TableEntryV| #[trigger] compact_from(t, i0).contains(x) ==> exists|j: int|
            i0 <= j < t.len() && (j == 0 || !removable(t, j)) && t[j] == x,
        forall|j: int|
            i0 <= j < t.len() && (j == 0 || !removable(t, j)) ==> #[trigger] compact_from(
                t,
                i0,
            ).contains(t[j]),
    decreases t.len() - i0,
{
    if i0 < t.len() {
        lemma_compact_mem(t, i0 + 1);
        let rest = compact_from(t, i0 + 1);
        if i0 == 0 || !removable(t, i0) {
            let cur = compact_from(t, i0);
            assert(cur == seq![t[i0]] + rest);
            assert forall|x: TableEntryV| #[trigger] cur.contains(x) implies exists|j: int|
                i0 <= j < t.len() && (j == 0 || !removable(t, j)) && t[j] == x by {
                let m = choose|m: int| 0 <= m < cur.len() && cur[m] == x;
                if m == 0 {
                    assert(t[i0] == x);
                } else {
                    assert(rest[m - 1] == x);
                    assert(rest.contains(x));
                }
            }
            assert forall|j: int|
                i0 <= j < t.len() && (j == 0 || !removable(t, j)) implies #[trigger] cur.contains(
                t[j],
            ) by {
                if j == i0 {
                    assert(cur[0] == t[j]);
                } else {
                    assert(rest.contains(t[j]));
                    let m = choose|m: int| 0 <= m < rest.len() && rest[m] == t[j];
                    assert(cur[m + 1] == t[j]);
                }
            }
        } else {
            assert(compact_from(t, i0) == rest);
            assert forall|j: int|
                i0 <= j < t.len() && (j == 0 || !removable(t, j)) implies #[trigger] compact_from(
                t,
                i0,
            ).contains(t[j]) by {
                assert(j != i0);
                assert(rest.contains(t[j]));
            }
        }
    }
}

/// A key present in the compacted table belongs to a kept entry, whose
/// configuration the compacted table reports.
proof fn lemma_compact_key(t: Seq<TableEntryV>, k: KeyV) -> (j: int)
    requires
        table_sorted(t),
        key_in(compact_from(t, 0), k),
    ensures
        0 <= j < t.len(),
        j == 0 || !removable(t, j),
        t[j].0 == k,
        entry_for(compact_from(t, 0), k) == t[j].1,
{
    let c = compact_from(t, 0);
    lemma_compact_mem(t, 0);
    assert(exists|i: int| 0 <= i < c.len() && c[i].0 == k);
    let mc = choose|i: int| 0 <= i < c.len() && c[i].0 == k;
    assert(0 <= mc < c.len() && c[mc].0 == k);
    assert(c.contains(c[mc]));
    assert(exists|x: int| 0 <= x < t.len() && (x == 0 || !removable(t, x)) && t[x] == c[mc]);
    let j = choose|x: int| 0 <= x < t.len() && (x == 0 || !removable(t, x)) && t[x] == c[mc];
    assert(t[j].0 == k);
    assert forall|i: int| 0 <= i < c.len() && c[i].0 == k implies c[i].1 == c[mc].1 by {
        assert(c.contains(c[i]));
        assert(exists|x: int| 0 <= x < t.len() && (x == 0 || !removable(t, x)) && t[x] == c[i]);
        let ji = choose|x: int| 0 <= x < t.len() && (x == 0 || !removable(t, x)) && t[x] == c[i];
        lemma_keys_unique(t, ji, j);
    }
    lemma_entry_for_unique(c, k, mc);
    j
}

/// A kept entry's key is present in the compacted table, with its own
/// configuration.
proof fn lemma_kept_key(t: Seq<TableEntryV>, j: int)
    requires
        table_sorted(t),
        0 <= j < t.len(),
        j == 0 || !removable(t, j),
    ensures
        key_in(compact_from(t, 0), t[j].0),
        entry_for(compact_from(t, 0), t[j].0) == t[j].1,
{
    let c = compact_from(t, 0);
    lemma_compact_mem(t, 0);
    assert(c.contains(t[j]));
    let m = choose|m: int| 0 <= m < c.len() && c[m] == t[j];
    assert(c[m].0 == t[j].0);
    assert(key_in(c, t[j].0));
    let j2 = lemma_compact_key(t, t[j].0);
    lemma_keys_unique(t, j, j2);
}

/// A removed entry's key is absent from the compacted table.
proof fn lemma_removed_key(t: Seq<TableEntryV>, j: int)
    requires
        table_sorted(t),
        1 <= j < t.len(),
        removable(t, j),
    ensures
        !key_in(compact_from(t, 0), t[j].0),
{
    if key_in(compact_from(t, 0), t[j].0) {
        let j2 = lemma_compact_key(t, t[j].0);
        lemma_keys_unique(t, j, j2);
    }
}

/// What the last slash position means.
proof fn lemma_last_slash_props(p: Seq<char>)
    ensures
        match last_slash(p) {
            Option::Some(m) => 0 <= m < p.len() && p[m] == '/' && forall|x: int|
                m < x < p.len() ==> p[x] != '/',
            Option::None => forall|x: int| 0 <= x < p.len() ==> p[x] != '/',
        },
    decreases p.len(),
{
    if p.len() > 0 && p.last() != '/' {
        lemma_last_slash_props(p.drop_last());
        assert forall|x: int| 0 <= x < p.len() - 1 implies p.drop_last()[x] == p[x] by {}
    }
}

/// While every strictly longer boundary ancestor of `p` above `q` is absent,
/// the walk from `p` reaches `q`.
proof fn lemma_walk_to_ancestor(
    c: Seq<TableEntryV>,
    h: Seq<char>,
    p: Seq<char>,
    q: Seq<char>,
)
    requires
        q.len() < p.len(),
        p.take(q.len() as int) == q,
        p[q.len() as int] == '/',
        !key_in(c, (h, p)),
        forall|m: int|
            q.len() < m < p.len() && p[m] == '/' ==> !key_in(c, (h, #[trigger] p.take(m))),
    ensures
        walk_host(c, h, p) == walk_host(c, h, q),
    decreases p.len(),
{
    lemma_last_slash_props(p);
    let ls = last_slash(p);
    assert(ls is Some) by {
        if ls is None {
            assert(p[q.len() as int] != '/');
        }
    }
    let m = ls->0;
    assert(m >= q.len()) by {
        if m < q.len() {
            assert(p[q.len() as int] != '/');
        }
    }
    let par = p.take(m);
    assert(parent_of(p) == par);
    assert(par.len() < p.len());
    if m == q.len() {
        assert(par =~= q);
    } else {
        assert(!key_in(c, (h, par)));
        assert(par.take(q.len() as int) =~= q);
        assert(par[q.len() as int] == '/');
        assert forall|x: int|
            q.len() < x < par.len() && par[x] == '/' implies !key_in(
            c,
            (h, #[trigger] par.take(x)),
        ) by {
            assert(par[x] == p[x]);
            assert(par.take(x) =~= p.take(x));
        }
        lemma_walk_to_ancestor(c, h, par, q);
    }
}

/// Compaction preserves the ancestor walk's prefix answer: for every key of
/// the uncompacted table, the walk over the compacted table yields exactly
/// that key's prefix configuration.  The table must be sorted by key with
/// the global root first, and no path may begin with `/`.
pub proof fn lemma_compaction_preserves_prefix(t: Seq<TableEntryV>, i: int)
    requires
        table_sorted(t),
        no_leading_slash(t),
        t.len() > 0,
        t[0].0 == (Seq::<char>::empty(), Seq::<char>::empty()),
        0 <= i < t.len(),
    ensures
        gives_prefix(walk_lookup(compact_from(t, 0), t[i].0.0, t[i].0.1), t[i].1.prefix),
        i == 0 || !removable(t, i) || t[i].0.1.len() > 0 ==> gives_prefix(
            walk_host(compact_from(t, 0), t[i].0.0, t[i].0.1),
            t[i].1.prefix,
        ),
    decreases i,
{
    let c = compact_from(t, 0);
    let h = t[i].0.0;
    let p = t[i].0.1;
    if i == 0 || !removable(t, i) {
        lemma_kept_key(t, i);
        assert(walk_host(c, h, p) == Option::Some(t[i].1));
    } else if p.len() == 0 {
        // A removed host root: its configuration equals the global root's,
        // and the walk falls back to the global root.
        lemma_removed_key(t, i);
        assert(walk_host(c, h, p) is None);
        lemma_kept_key(t, 0);
        assert(p =~= Seq::<char>::empty());
        assert((Seq::<char>::empty(), p) == t[0].0);
        assert(key_in(c, (Seq::<char>::empty(), p)));
        assert(walk_host(c, Seq::<char>::empty(), p) == Option::Some(t[0].1));
        assert(t[i].1 == t[0].1);
    } else {
        // A removed path entry: its immediate predecessor is a same-host
        // boundary ancestor with the same prefix answer; ancestors between
        // the two never existed, so the walk reaches the predecessor's path,
        // whose own walk answer the induction supplies.
        let pk = t[i - 1].0;
        assert(pk.0 == h && pk.1.len() < p.len() && p.take(pk.1.len() as int) == pk.1 && p[
            pk.1.len() as int] == '/' && t[i - 1].1.prefix == t[i].1.prefix);
        assert(pk.1.len() > 0) by {
            if pk.1.len() == 0 {
                assert(p[0] == '/');
                assert(t[i].0.1[0] != '/');
            }
        }
        lemma_removed_key(t, i);
        assert forall|m: int|
            pk.1.len() < m < p.len() && p[m] == '/' implies !key_in(
            c,
            (h, #[trigger] p.take(m)),
        ) by {
            let q = p.take(m);
            assert(q.take(pk.1.len() as int) =~= pk.1);
            lemma_prefix_lt(pk.1, q);
            lemma_prefix_lt(q, p);
            assert(key_lt(t[i - 1].0, (h, q)));
            assert(key_lt((h, q), t[i].0));
            lemma_adjacent_absent(t, i, (h, q));
            if key_in(c, (h, q)) {
                lemma_compact_key(t, (h, q));
                let j = choose|j: int|
                    0 <= j < t.len() && (j == 0 || !removable(t, j)) && t[j].0 == (h, q);
                assert(key_in(t, (h, q)));
            }
        }
        lemma_walk_to_ancestor(c, h, p, pk.1);
        if i - 1 == 0 || !removable(t, i - 1) {
            lemma_kept_key(t, i - 1);
            assert(walk_host(c, h, pk.1) == Option::Some(t[i - 1].1));
        } else {
            assert(t[i - 1].0.1.len() > 0);
            lemma_compaction_preserves_prefix(t, i - 1);
            assert(gives_prefix(walk_host(c, t[i - 1].0.0, t[i - 1].0.1), t[i - 1].1.prefix));
        }
    }
}

/// A key list sorted strictly ascending.
pub open spec fn keys_sorted(s: Seq<KeyV>) -> bool {
    forall|a: int, b: int| 0 <= a < b < s.len() ==> key_lt(s[a], s[b])
}

proof fn lemma_seq_lt_connected(a: Seq<char>, b: Seq<char>)
    requires
        a != b,
    ensures
        seq_lt(a, b) || seq_lt(b, a),
    decreases a.len(),
{
    if a.len() == 0 {
        if b.len() == 0 {
            assert(a =~= b);
        }
    } else if b.len() == 0 {
    } else if a[0] == b[0] {
        assert(a.drop_first() != b.drop_first()) by {
            if a.drop_first() == b.drop_first() {
                assert(a.drop_first().len() == a.len() - 1);
                assert(b.drop_first().len() == b.len() - 1);
                assert(a.len() == b.len());
                assert forall|i: int| 0 <= i < a.len() implies a[i] == b[i] by {
                    if i > 0 {
                        assert(a.drop_first()[i - 1] == b.drop_first()[i - 1]);
                    }
                }
                assert(a =~= b);
            }
        }
        lemma_seq_lt_connected(a.drop_first(), b.drop_first());
    } else {
        if (a[0] as u32) == (b[0] as u32) {
            vstd::utf8::char_u32_cast(a[0], a[0] as u32);
            vstd::utf8::char_u32_cast(b[0], b[0] as u32);
            assert(a[0] == b[0]);
        }
        assert((a[0] as u32) != (b[0] as u32));
    }
}

proof fn lemma_key_lt_connected(a: KeyV, b: KeyV)
    requires
        a != b,
    ensures
        key_lt(a, b) || key_lt(b, a),
{
    if a.0 == b.0 {
        assert(a.1 != b.1);
        lemma_seq_lt_connected(a.1, b.1);
    } else {
        lemma_seq_lt_connected(a.0, b.0);
    }
}

/// The members of an insertion: the old keys plus the inserted one.
proof fn lemma_insert_key_members(s: Seq<KeyV>, k: KeyV, x: KeyV)
    ensures
        insert_key(s, k).contains(x) <==> (s.contains(x) || x == k),
    decreases s.len(),
{
    let r = insert_key(s, k);
    if s.len() == 0 {
        assert(r =~= seq![k]);
        if x == k {
            assert(r[0] == x);
        }
        if r.contains(x) {
            let i = choose|i: int| 0 <= i < r.len() && r[i] == x;
            assert(x == k);
        }
    } else if k == s[0] {
        assert(r == s);
        if x == k {
            assert(s[0] == x);
            assert(s.contains(x));
        }
    } else if key_lt(k, s[0]) {
        assert(r == seq![k] + s);
        if r.contains(x) {
            let i = choose|i: int| 0 <= i < r.len() && r[i] == x;
            if i == 0 {
                assert(x == k);
            } else {
                assert(s[i - 1] == x);
                assert(s.contains(x));
            }
        }
        if x == k {
            assert(r[0] == x);
            assert(r.contains(x));
        }
        if s.contains(x) {
            let i = choose|i: int| 0 <= i < s.len() && s[i] == x;
            assert(r[i + 1] == x);
            assert(r.contains(x));
        }
    } else {
        let rest = insert_key(s.drop_first(), k);
        lemma_insert_key_members(s.drop_first(), k, x);
        assert(r == seq![s[0]] + rest);
        if r.contains(x) {
            let i = choose|i: int| 0 <= i < r.len() && r[i] == x;
            if i == 0 {
                assert(s[0] == x);
                assert(s.contains(x));
            } else {
                assert(rest[i - 1] == x);
                assert(rest.contains(x));
                if s.drop_first().contains(x) {
                    let m = choose|m: int| 0 <= m < s.drop_first().len() && s.drop_first()[m] == x;
                    assert(s[m + 1] == x);
                    assert(s.contains(x));
                }
            }
        }
        if x == k {
            assert(rest.contains(x));
            let m = choose|m: int| 0 <= m < rest.len() && rest[m] == x;
            assert(r[m + 1] == x);
            assert(r.contains(x));
        }
        if s.contains(x) {
            let i = choose|i: int| 0 <= i < s.len() && s[i] == x;
            if i == 0 {
                assert(r[0] == x);
            } else {
                assert(s.drop_first()[i - 1] == x);
                assert(s.drop_first().contains(x));
                assert(rest.contains(x));
                let m = choose|m: int| 0 <= m < rest.len() && rest[m] == x;
                assert(r[m + 1] == x);
            }
            assert(r.contains(x));
        }
    }
}

/// Insertion keeps the key list sorted.
proof fn lemma_insert_key_sorted(s: Seq<KeyV>, k: KeyV)
    requires
        keys_sorted(s),
    ensures
        keys_sorted(insert_key(s, k)),
    decreases s.len(),
{
    let r = insert_key(s, k);
    if s.len() == 0 {
    } else if k == s[0] {
    } else if key_lt(k, s[0]) {
        assert(r == seq![k] + s);
        assert forall|a: int, b: int| 0 <= a < b < r.len() implies key_lt(r[a], r[b]) by {
            if a == 0 {
                assert(r[b] == s[b - 1]);
                if b - 1 > 0 {
                    lemma_key_lt_trans(k, s[0], s[b - 1]);
                }
            } else {
                assert(r[a] == s[a - 1] && r[b] == s[b - 1]);
            }
        }
    } else {
        let rest = s.drop_first();
        assert(keys_sorted(rest)) by {
            assert forall|a: int, b: int| 0 <= a < b < rest.len() implies key_lt(
                rest[a],
                rest[b],
            ) by {
                assert(rest[a] == s[a + 1] && rest[b] == s[b + 1]);
            }
        }
        lemma_insert_key_sorted(rest, k);
        let ri = insert_key(rest, k);
        lemma_key_lt_connected(k, s[0]);
        assert(key_lt(s[0], k));
        assert(r == seq![s[0]] + ri);
        assert forall|a: int, b: int| 0 <= a < b < r.len() implies key_lt(r[a], r[b]) by {
            if a == 0 {
                assert(r[b] == ri[b - 1]);
                assert(ri.contains(ri[b - 1]));
                lemma_insert_key_members(rest, k, ri[b - 1]);
                if rest.contains(ri[b - 1]) {
                    let m = choose|m: int| 0 <= m < rest.len() && rest[m] == ri[b - 1];
                    assert(rest[m] == s[m + 1]);
                    assert(key_lt(s[0], s[m + 1]));
                }
            } else {
                assert(r[a] == ri[a - 1] && r[b] == ri[b - 1]);
            }
        }
    }
}

/// Cross-host insertion keeps the key list sorted.
proof fn lemma_insert_cross_sorted(s: Seq<KeyV>, path: Seq<char>, hosts: Seq<Seq<char>>)
    requires
        keys_sorted(s),
    ensures
        keys_sorted(insert_cross(s, path, hosts)),
    decreases hosts.len(),
{
    if hosts.len() > 0 {
        lemma_insert_cross_sorted(s, path, hosts.drop_last());
        lemma_insert_key_sorted(insert_cross(s, path, hosts.drop_last()), (hosts.last(), path));
    }
}

/// The key space of the table compiler is sorted.
proof fn lemma_keys_spec_sorted(ps: Seq<KeyV>, hosts: Seq<Seq<char>>)
    ensures
        keys_sorted(keys_spec(ps, hosts)),
    decreases ps.len(),
{
    if ps.len() > 0 {
        lemma_keys_spec_sorted(ps.drop_last(), hosts);
        let prev = keys_spec(ps.drop_last(), hosts);
        lemma_insert_key_sorted(prev, ps.last());
        if ps.last().0.len() == 0 {
            lemma_insert_cross_sorted(insert_key(prev, ps.last()), ps.last().1, hosts);
        }
    }
}

/// Compaction preservation for the compiled pipeline: for every key of the
/// uncompacted table of a rule list, the ancestor walk over the compiled
/// table yields exactly that key's prefix configuration, provided no key
/// path begins with `/`.
pub proof fn lemma_table_spec_preserves_prefix<R: MatchOracle, C: IntoHeaders>(
    rules: Seq<WithMatchRules<R, C>>,
    i: int,
)
    requires
        ({
            let pats = all_pats(rules);
            let pre = table_pre(rules, keys_spec(pats, hosts_of_pats(pats)));
            no_leading_slash(pre) && 0 <= i < pre.len()
        }),
    ensures
        ({
            let pats = all_pats(rules);
            let pre = table_pre(rules, keys_spec(pats, hosts_of_pats(pats)));
            gives_prefix(walk_lookup(table_spec(rules), pre[i].0.0, pre[i].0.1), pre[i].1.prefix)
        }),
{
    let pats = all_pats(rules);
    let hosts = hosts_of_pats(pats);
    let keys = keys_spec(pats, hosts);
    let pre = table_pre(rules, keys);
    lemma_keys_spec_sorted(pats, hosts);
    assert(table_sorted(pre)) by {
        assert forall|a: int, b: int| 0 <= a < b < pre.len() implies key_lt(
            pre[a].0,
            pre[b].0,
        ) by {
            assert(pre[a].0 == keys[a]);
            assert(pre[b].0 == keys[b]);
        }
    }
    lemma_keys_root(pats, hosts);
    assert(pre.len() == keys.len());
    assert(pre[0].0 == keys[0]);
    lemma_compaction_preserves_prefix(pre, i);
    assert(table_spec(rules) == compact_from(pre, 0));
}

} // verus!
