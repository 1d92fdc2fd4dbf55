//! Payload capabilities required by the table compiler, and the concrete
//! header-injection payload: a set of header name/value pairs where a merge
//! lets the more specific rule overwrite values of headers it names while
//! keeping the rest.

use vstd::prelude::*;

use crate::text::str_eq;

verus! {

/// A header name/value pair.
pub type Header = (String, String);

/// View of a header: name and value as character sequences.
pub type HeaderV = (Seq<char>, Seq<char>);

/// A payload that can absorb a more specific payload.  Contracts are stated
/// over an abstract model of the payload so that the compiled table is a
/// function of the models alone.
pub trait Mergeable: Sized {
    /// The mathematical content of a payload value.
    type Model;

    /// The model of this payload value.
    spec fn model(self) -> Self::Model;

    /// What merging does to models: fields set by `m2` win, fields only in
    /// `m1` are kept.
    spec fn merged_model(m1: Self::Model, m2: Self::Model) -> Self::Model;

    /// Absorb `other`, which stems from a more specific rule.
    fn merge_with(&mut self, other: Self)
        ensures
            final(self).model() == Self::merged_model(old(self).model(), other.model()),
    ;

    /// A fresh payload with the same model.
    fn duplicate(&self) -> (c: Self)
        ensures
            c.model() == self.model(),
    ;
}

/// A payload that can be projected into an ordered list of header pairs.
pub trait IntoHeaders: Mergeable {
    /// The projection of a payload model into header pairs.
    spec fn hdrs_of(m: <Self as Mergeable>::Model) -> Seq<HeaderV>;

    /// Project the payload.
    fn into_headers(self) -> (r: Vec<Header>)
        ensures
            r.deep_view() == Self::hdrs_of(self.model()),
    ;
}

/// Does some entry of `m` carry the header name `n`?
pub open spec fn has_name(m: Seq<HeaderV>, n: Seq<char>) -> bool {
    exists|i: int| 0 <= i < m.len() && m[i].0 == n
}

/// The entries of `m1` whose names do not occur in `m2`, in order.
pub open spec fn keep_unshadowed(m1: Seq<HeaderV>, m2: Seq<HeaderV>) -> Seq<HeaderV>
    decreases m1.len(),
{
    if m1.len() == 0 {
        Seq::empty()
    } else {
        keep_unshadowed(m1.drop_last(), m2) + if has_name(m2, m1.last().0) {
            Seq::empty()
        } else {
            seq![m1.last()]
        }
    }
}

/// Executable check whether `v` carries an entry named `n`.
fn contains_name(v: &Vec<Header>, n: &str) -> (r: bool)
    ensures
        r == has_name(v.deep_view(), n@),
{
    let mut i: usize = 0;
    while i < v.len()
        invariant
            0 <= i <= v@.len(),
            forall|k: int| 0 <= k < i ==> v.deep_view()[k].0 != n@,
        decreases v@.len() - i,
    {
        if str_eq(v[i].0.as_str(), n) {
            assert(v.deep_view()[i as int].0 == n@);
            return true;
        }
        i = i + 1;
    }
    false
}

/// The header-injection payload: a list of header name/value pairs.
#[derive(Debug)]
pub struct HeadersConf {
    pub headers: Vec<Header>,
}

impl Mergeable for HeadersConf {
    type Model = Seq<HeaderV>;

    open spec fn model(self) -> Seq<HeaderV> {
        self.headers.deep_view()
    }

    open spec fn merged_model(m1: Seq<HeaderV>, m2: Seq<HeaderV>) -> Seq<HeaderV> {
        keep_unshadowed(m1, m2) + m2
    }

    fn merge_with(&mut self, other: Self) {
        let mut out: Vec<Header> = Vec::new();
        let mut i: usize = 0;
        while i < self.headers.len()
            invariant
                0 <= i <= self.headers@.len(),
                out.deep_view() =~= keep_unshadowed(
                    self.headers.deep_view().take(i as int),
                    other.headers.deep_view(),
                ),
            decreases self.headers@.len() - i,
        {
            let ghost m1 = self.headers.deep_view();
            proof {
                assert(m1.take(i + 1).drop_last() =~= m1.take(i as int));
                assert(m1.take(i + 1).last() == m1[i as int]);
            }
            if !contains_name(&other.headers, self.headers[i].0.as_str()) {
                let ghost pre = out.deep_view();
                out.push((self.headers[i].0.clone(), self.headers[i].1.clone()));
                proof {
                    assert(out.deep_view() =~= pre.push(m1[i as int]));
                }
            }
            i = i + 1;
        }
        proof {
            assert(self.headers.deep_view().take(self.headers@.len() as int)
                =~= self.headers.deep_view());
        }
        let mut j: usize = 0;
        while j < other.headers.len()
            invariant
                0 <= j <= other.headers@.len(),
                out.deep_view() =~= keep_unshadowed(
                    self.headers.deep_view(),
                    other.headers.deep_view(),
                ) + other.headers.deep_view().take(j as int),
            decreases other.headers@.len() - j,
        {
            let ghost pre = out.deep_view();
            out.push((other.headers[j].0.clone(), other.headers[j].1.clone()));
            proof {
                assert(out.deep_view() =~= pre.push(other.headers.deep_view()[j as int]));
            }
            j = j + 1;
        }
        proof {
            assert(other.headers.deep_view().take(other.headers@.len() as int)
                =~= other.headers.deep_view());
        }
        self.headers = out;
    }

    fn duplicate(&self) -> (c: Self) {
        let mut out: Vec<Header> = Vec::new();
        let mut i: usize = 0;
        while i < self.headers.len()
            invariant
                0 <= i <= self.headers@.len(),
                out.deep_view() =~= self.headers.deep_view().take(i as int),
            decreases self.headers@.len() - i,
        {
            let ghost pre = out.deep_view();
            out.push((self.headers[i].0.clone(), self.headers[i].1.clone()));
            proof {
                assert(out.deep_view() =~= pre.push(self.headers.deep_view()[i as int]));
            }
            i = i + 1;
        }
        proof {
            assert(self.headers.deep_view().take(self.headers@.len() as int)
                =~= self.headers.deep_view());
        }
        HeadersConf { headers: out }
    }
}

impl IntoHeaders for HeadersConf {
    open spec fn hdrs_of(m: Seq<HeaderV>) -> Seq<HeaderV> {
        m
    }

    fn into_headers(self) -> (r: Vec<Header>) {
        self.headers
    }
}

/// The effective value of header `n` in the model `m`: the value of its last
/// entry named `n`, which merging lets overwrite the earlier ones.
pub open spec fn last_value(m: Seq<HeaderV>, n: Seq<char>) -> Option<Seq<char>>
    decreases m.len(),
{
    if m.len() == 0 {
        Option::None
    } else if m.last().0 == n {
        Option::Some(m.last().1)
    } else {
        last_value(m.drop_last(), n)
    }
}

/// A name has an effective value exactly when some entry carries it.
pub proof fn lemma_last_value_some_iff(m: Seq<HeaderV>, n: Seq<char>)
    ensures
        last_value(m, n) is Some <==> has_name(m, n),
    decreases m.len(),
{
    if m.len() > 0 {
        lemma_last_value_some_iff(m.drop_last(), n);
        if m.last().0 == n {
            assert(m[m.len() - 1].0 == n);
        } else {
            assert forall|i: int| 0 <= i < m.len() && m[i].0 == n implies has_name(
                m.drop_last(),
                n,
            ) by {
                assert(m.drop_last()[i] == m[i]);
            }
        }
    }
}

/// The effective value names an actual entry.
pub proof fn lemma_last_value_mem(m: Seq<HeaderV>, n: Seq<char>, v: Seq<char>)
    requires
        last_value(m, n) == Option::Some(v),
    ensures
        m.contains((n, v)),
    decreases m.len(),
{
    if m.len() > 0 {
        if m.last().0 == n {
            assert(m[m.len() - 1] == (n, v));
        } else {
            lemma_last_value_mem(m.drop_last(), n, v);
            let i = choose|i: int| 0 <= i < m.drop_last().len() && m.drop_last()[i] == (n, v);
            assert(m[i] == (n, v));
        }
    }
}

/// The effective value of a concatenation: the right side wins when it names
/// the header at all.
pub proof fn lemma_last_value_concat(a: Seq<HeaderV>, b: Seq<HeaderV>, n: Seq<char>)
    ensures
        last_value(a + b, n) == if has_name(b, n) {
            last_value(b, n)
        } else {
            last_value(a, n)
        },
    decreases b.len(),
{
    lemma_last_value_some_iff(b, n);
    if b.len() == 0 {
        assert(a + b =~= a);
    } else {
        assert((a + b).drop_last() =~= a + b.drop_last());
        assert((a + b).last() == b.last());
        lemma_last_value_concat(a, b.drop_last(), n);
        lemma_last_value_some_iff(b.drop_last(), n);
        if b.last().0 != n {
            assert forall|i: int| 0 <= i < b.len() && b[i].0 == n implies has_name(
                b.drop_last(),
                n,
            ) by {
                assert(b.drop_last()[i] == b[i]);
            }
        } else {
            assert(b[b.len() - 1].0 == n);
        }
    }
}

/// Entries whose name the overriding side carries are all dropped; the rest
/// keep their effective value.
pub proof fn lemma_keep_unshadowed_value(m1: Seq<HeaderV>, m2: Seq<HeaderV>, n: Seq<char>)
    ensures
        has_name(m2, n) ==> !has_name(keep_unshadowed(m1, m2), n),
        !has_name(m2, n) ==> last_value(keep_unshadowed(m1, m2), n) == last_value(m1, n),
    decreases m1.len(),
{
    if m1.len() == 0 {
        assert(!has_name(keep_unshadowed(m1, m2), n));
    } else {
        lemma_keep_unshadowed_value(m1.drop_last(), m2, n);
        let kept = keep_unshadowed(m1.drop_last(), m2);
        let tail: Seq<HeaderV> = if has_name(m2, m1.last().0) {
            Seq::empty()
        } else {
            seq![m1.last()]
        };
        lemma_last_value_concat(kept, tail, n);
        if has_name(m2, n) {
            assert forall|i: int|
                0 <= i < (kept + tail).len() implies (kept + tail)[i].0 != n by {
                if i < kept.len() {
                    assert((kept + tail)[i] == kept[i]);
                } else {
                    assert((kept + tail)[i] == m1.last());
                }
            }
        }
    }
}

/// The effective value after a merge: the more specific side wins whenever
/// it names the header, the less specific side is kept otherwise.
pub proof fn lemma_merged_value(m1: Seq<HeaderV>, m2: Seq<HeaderV>, n: Seq<char>)
    ensures
        last_value(HeadersConf::merged_model(m1, m2), n) == if has_name(m2, n) {
            last_value(m2, n)
        } else {
            last_value(m1, n)
        },
{
    lemma_keep_unshadowed_value(m1, m2, n);
    lemma_last_value_concat(keep_unshadowed(m1, m2), m2, n);
    lemma_last_value_some_iff(m2, n);
    if !has_name(m2, n) {
        lemma_last_value_some_iff(keep_unshadowed(m1, m2), n);
    }
}

} // verus!
