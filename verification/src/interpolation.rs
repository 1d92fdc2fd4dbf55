//! Templates with `${name}` placeholders.  A template is parsed once into a
//! sequence of literal and variable segments; evaluation resolves each
//! variable through a caller-supplied lookup, reproducing the original
//! `${name}` text whenever the lookup has no value for it.  Malformed
//! markers are never an error: they stay literal text.

use vstd::prelude::*;

use vstd::utf8::encode_utf8;

verus! {

/// One parsed segment of a template.
#[derive(Debug)]
enum InterpolationPart {
    Literal(String),
    Variable(String),
}

/// View of a segment.
pub enum PartView {
    Literal(Seq<char>),
    Variable(Seq<char>),
}

impl View for InterpolationPart {
    type V = PartView;

    closed spec fn view(&self) -> PartView {
        match self {
            InterpolationPart::Literal(l) => PartView::Literal(l@),
            InterpolationPart::Variable(n) => PartView::Variable(n@),
        }
    }
}

impl DeepView for InterpolationPart {
    type V = PartView;

    closed spec fn deep_view(&self) -> PartView {
        self.view()
    }
}

/// The name carried by a variable segment.
pub open spec fn var_name(p: PartView) -> Seq<char> {
    match p {
        PartView::Variable(n) => n,
        PartView::Literal(l) => l,
    }
}

/// May `c` appear in a variable name?
pub open spec fn is_name_char(c: char) -> bool {
    let u = c as u32;
    (48 <= u && u <= 57) || (65 <= u && u <= 90) || (97 <= u && u <= 122) || u == 95
}

/// A valid variable name: ASCII letters, digits and underscore only.
pub open spec fn valid_name(s: Seq<char>) -> bool {
    forall|i: int| 0 <= i < s.len() ==> is_name_char(s[i])
}

/// Position of the first `}` at or after `from`.
pub open spec fn first_close(s: Seq<char>, from: int) -> Option<int>
    decreases s.len() - from,
{
    if from < 0 || from >= s.len() {
        Option::None
    } else if s[from] == '}' {
        Option::Some(from)
    } else {
        first_close(s, from + 1)
    }
}

/// Scan forward from `from` for the next well-formed `${name}`: the
/// positions of its `$` and of its `}`.  An open marker whose name up to the
/// next `}` is invalid is skipped, and scanning resumes just after it.
pub open spec fn scan_from(s: Seq<char>, from: int) -> Option<(int, int)>
    decreases s.len() - from,
{
    if from < 0 || from + 2 > s.len() {
        Option::None
    } else if s[from] == '$' && s[from + 1] == '{' {
        match first_close(s, from) {
            Option::None => Option::None,
            Option::Some(j) => if valid_name(s.subrange(from + 2, j)) {
                Option::Some((from, j))
            } else {
                scan_from(s, from + 2)
            },
        }
    } else {
        scan_from(s, from + 1)
    }
}

proof fn lemma_first_close_props(s: Seq<char>, from: int, j: int)
    requires
        first_close(s, from) == Option::Some(j),
    ensures
        from <= j < s.len(),
        s[j] == '}',
        forall|m: int| from <= m < j ==> s[m] != '}',
    decreases s.len() - from,
{
    if !(from < 0 || from >= s.len()) && s[from] != '}' {
        lemma_first_close_props(s, from + 1, j);
    }
}

/// A successful scan yields a well-formed marker inside the string.
pub proof fn lemma_scan_bounds(s: Seq<char>, from: int, i: int, j: int)
    requires
        0 <= from,
        scan_from(s, from) == Option::Some((i, j)),
    ensures
        from <= i,
        i + 2 <= j < s.len(),
        s[i] == '$',
        s[i + 1] == '{',
        s[j] == '}',
        valid_name(s.subrange(i + 2, j)),
    decreases s.len() - from,
{
    if from + 2 > s.len() {
    } else if s[from] == '$' && s[from + 1] == '{' {
        match first_close(s, from) {
            Option::None => {},
            Option::Some(c) => {
                lemma_first_close_props(s, from, c);
                assert(c >= from + 2);
                if !valid_name(s.subrange(from + 2, c)) {
                    lemma_scan_bounds(s, from + 2, i, j);
                }
            },
        }
    } else {
        lemma_scan_bounds(s, from + 1, i, j);
    }
}

/// The parsed segments of a template string.
pub open spec fn parse_parts(s: Seq<char>) -> Seq<PartView>
    decreases s.len(),
{
    if s.len() == 0 {
        Seq::empty()
    } else {
        match scan_from(s, 0) {
            Option::None => seq![PartView::Literal(s)],
            Option::Some((i, j)) => if 0 <= i && i + 2 <= j && j < s.len() {
                (if i > 0 {
                    seq![PartView::Literal(s.subrange(0, i))]
                } else {
                    Seq::<PartView>::empty()
                }) + seq![PartView::Variable(s.subrange(i + 2, j))] + parse_parts(
                    s.subrange(j + 1, s.len() as int),
                )
            } else {
                Seq::empty()
            },
        }
    }
}

/// The bytes one segment contributes, given the lookup's answer for it.
pub open spec fn part_bytes(p: PartView, val: Option<Seq<u8>>) -> Seq<u8> {
    match p {
        PartView::Literal(l) => encode_utf8(l),
        PartView::Variable(n) => match val {
            Option::Some(b) => b,
            Option::None => encode_utf8("${"@) + encode_utf8(n) + encode_utf8("}"@),
        },
    }
}

/// The bytes of an evaluated template, given per-segment lookup answers.
pub open spec fn interp_bytes(parts: Seq<PartView>, vals: Seq<Option<Seq<u8>>>) -> Seq<u8>
    decreases parts.len(),
{
    if parts.len() == 0 {
        Seq::empty()
    } else {
        interp_bytes(parts.drop_last(), vals.drop_last()) + part_bytes(
            parts.last(),
            if vals.len() > 0 {
                vals.last()
            } else {
                Option::None
            },
        )
    }
}

/// The bytes of an evaluated template when every lookup misses.
pub open spec fn unresolved_bytes(parts: Seq<PartView>) -> Seq<u8>
    decreases parts.len(),
{
    if parts.len() == 0 {
        Seq::empty()
    } else {
        unresolved_bytes(parts.drop_last()) + part_bytes(parts.last(), Option::None)
    }
}

/// When every variable's answer is a miss, evaluation gives the unresolved
/// bytes, whatever the answers recorded for literal segments.
pub proof fn lemma_interp_all_none(parts: Seq<PartView>, vals: Seq<Option<Seq<u8>>>)
    requires
        parts.len() == vals.len(),
        forall|i: int| 0 <= i < parts.len() && parts[i] is Variable ==> vals[i] is None,
    ensures
        interp_bytes(parts, vals) == unresolved_bytes(parts),
    decreases parts.len(),
{
    if parts.len() > 0 {
        lemma_interp_all_none(parts.drop_last(), vals.drop_last());
        if parts.last() is Variable {
            assert(vals[parts.len() - 1] is None);
        }
    }
}

/// UTF-8 encoding distributes over concatenation.
proof fn lemma_encode_concat(a: Seq<char>, b: Seq<char>)
    ensures
        encode_utf8(a + b) == encode_utf8(a) + encode_utf8(b),
    decreases a.len(),
{
    if a.len() == 0 {
        assert(a + b =~= b);
        assert(encode_utf8(a) =~= Seq::<u8>::empty());
    } else {
        assert((a + b).drop_first() =~= a.drop_first() + b);
        lemma_encode_concat(a.drop_first(), b);
        assert(encode_utf8(a + b) =~= encode_utf8(a) + encode_utf8(b));
    }
}

/// Unresolved evaluation distributes over segment concatenation.
proof fn lemma_unresolved_concat(a: Seq<PartView>, b: Seq<PartView>)
    ensures
        unresolved_bytes(a + b) == unresolved_bytes(a) + unresolved_bytes(b),
    decreases b.len(),
{
    if b.len() == 0 {
        assert(a + b =~= a);
        assert(unresolved_bytes(b) =~= Seq::<u8>::empty());
        assert(unresolved_bytes(a) + unresolved_bytes(b) =~= unresolved_bytes(a));
    } else {
        assert((a + b).drop_last() =~= a + b.drop_last());
        assert((a + b).last() == b.last());
        lemma_unresolved_concat(a, b.drop_last());
        assert(unresolved_bytes(a) + unresolved_bytes(b.drop_last()) + part_bytes(
            b.last(),
            Option::None,
        ) =~= unresolved_bytes(a) + unresolved_bytes(b));
    }
}

/// Round trip: parsing a template and evaluating it with every lookup
/// missing reproduces the template's bytes exactly, for any template.
pub proof fn lemma_parse_round_trip(s: Seq<char>)
    ensures
        unresolved_bytes(parse_parts(s)) == encode_utf8(s),
    decreases s.len(),
{
    reveal_strlit("${");
    reveal_strlit("}");
    if s.len() == 0 {
        assert(encode_utf8(s) =~= Seq::<u8>::empty());
    } else {
        match scan_from(s, 0) {
            Option::None => {
                let parts = seq![PartView::Literal(s)];
                assert(parts.len() == 1);
                assert(parts.last() == PartView::Literal(s));
                assert(parts.drop_last() =~= Seq::<PartView>::empty());
                assert(unresolved_bytes(parts.drop_last()) =~= Seq::<u8>::empty());
                assert(part_bytes(parts.last(), Option::None) == encode_utf8(s));
                assert(unresolved_bytes(parts) == unresolved_bytes(parts.drop_last()) + part_bytes(
                    parts.last(),
                    Option::None,
                ));
                assert(parse_parts(s) == parts);
                assert(unresolved_bytes(parts) =~= encode_utf8(s));
            },
            Option::Some((i, j)) => {
                lemma_scan_bounds(s, 0, i, j);
                let pre = s.subrange(0, i);
                let name = s.subrange(i + 2, j);
                let suffix = s.subrange(j + 1, s.len() as int);
                let opener = s.subrange(i, i + 2);
                let closer = s.subrange(j, j + 1);
                lemma_parse_round_trip(suffix);
                let litpart = if i > 0 {
                    seq![PartView::Literal(pre)]
                } else {
                    Seq::<PartView>::empty()
                };
                let varpart = seq![PartView::Variable(name)];
                lemma_unresolved_concat(litpart + varpart, parse_parts(suffix));
                lemma_unresolved_concat(litpart, varpart);
                assert(litpart + varpart + parse_parts(suffix) =~= parse_parts(s));
                assert(varpart.drop_last() =~= Seq::<PartView>::empty());
                assert(varpart.last() == PartView::Variable(name));
                assert(unresolved_bytes(varpart.drop_last()) =~= Seq::<u8>::empty());
                assert(part_bytes(varpart.last(), Option::None) == encode_utf8("${"@)
                    + encode_utf8(name) + encode_utf8("}"@));
                assert(unresolved_bytes(varpart) == unresolved_bytes(varpart.drop_last())
                    + part_bytes(varpart.last(), Option::None));
                assert(unresolved_bytes(varpart) =~= encode_utf8("${"@) + encode_utf8(name)
                    + encode_utf8("}"@));
                if i > 0 {
                    assert(litpart.drop_last() =~= Seq::<PartView>::empty());
                    assert(litpart.last() == PartView::Literal(pre));
                    assert(unresolved_bytes(litpart.drop_last()) =~= Seq::<u8>::empty());
                    assert(unresolved_bytes(litpart) == unresolved_bytes(litpart.drop_last())
                        + part_bytes(litpart.last(), Option::None));
                    assert(unresolved_bytes(litpart) =~= encode_utf8(pre));
                } else {
                    assert(pre =~= Seq::<char>::empty());
                    assert(unresolved_bytes(litpart) =~= Seq::<u8>::empty());
                    assert(encode_utf8(pre) =~= Seq::<u8>::empty());
                }
                assert(opener =~= "${"@);
                assert(closer =~= "}"@);
                lemma_encode_concat(pre, opener);
                lemma_encode_concat(pre + opener, name);
                lemma_encode_concat(pre + opener + name, closer);
                lemma_encode_concat(pre + opener + name + closer, suffix);
                assert(pre + opener + name + closer + suffix =~= s);
                assert(unresolved_bytes(parse_parts(s)) =~= encode_utf8(s));
            },
        }
    }
}

/// Does some segment of `parts` name the variable `n`?
pub open spec fn has_var(parts: Seq<PartView>, n: Seq<char>) -> bool {
    exists|i: int| 0 <= i < parts.len() && parts[i] == PartView::Variable(n)
}

/// The model of a lookup answer.
pub open spec fn opt_bytes_view(o: Option<&[u8]>) -> Option<Seq<u8>> {
    match o {
        Option::Some(b) => Option::Some(b@),
        Option::None => Option::None,
    }
}

/// Is `v` an answer the lookup may give for the name `n`?
pub open spec fn could_return<'a, L: Fn(&str) -> Option<&'a [u8]>>(
    lookup: L,
    n: Seq<char>,
    v: Option<Seq<u8>>,
) -> bool {
    exists|s: &str, o: Option<&'a [u8]>|
        s@ == n && call_ensures(lookup, (s,), o) && opt_bytes_view(o) == v
}

/// Is `vals` a record of answers the lookup may have given for the variable
/// segments of `parts`?
pub open spec fn consistent_vals<'a, L: Fn(&str) -> Option<&'a [u8]>>(
    lookup: L,
    parts: Seq<PartView>,
    vals: Seq<Option<Seq<u8>>>,
) -> bool {
    forall|i: int|
        0 <= i < parts.len() && parts[i] is Variable ==> could_return(
            lookup,
            var_name(parts[i]),
            vals[i],
        )
}

/// Append a byte slice to a byte vector.
fn append_bytes(dst: &mut Vec<u8>, src: &[u8])
    ensures
        final(dst)@ == old(dst)@ + src@,
{
    let mut i: usize = 0;
    while i < src.len()
        invariant
            0 <= i <= src@.len(),
            dst@ =~= old(dst)@ + src@.take(i as int),
        decreases src@.len() - i,
    {
        dst.push(src[i]);
        proof {
            assert(dst@ =~= old(dst)@ + src@.take(i + 1));
        }
        i = i + 1;
    }
    proof {
        assert(src@.take(src@.len() as int) =~= src@);
    }
}

/// Parsed representation of a string with variable interpolation, such as
/// the target of a rewrite rule.
#[derive(Debug)]
pub struct VariableInterpolation {
    parts: Vec<InterpolationPart>,
}

impl View for VariableInterpolation {
    type V = Seq<PartView>;

    closed spec fn view(&self) -> Seq<PartView> {
        self.parts.deep_view()
    }
}

/// Executable name-character test.
fn name_char(c: char) -> (r: bool)
    ensures
        r == is_name_char(c),
{
    let u = c as u32;
    (48 <= u && u <= 57) || (65 <= u && u <= 90) || (97 <= u && u <= 122) || u == 95
}

/// Executable search for the first `}` at or after `from`.
fn find_close(s: &str, len: usize, from: usize) -> (r: Option<usize>)
    requires
        len == s@.len(),
    ensures
        match r {
            Option::Some(j) => first_close(s@, from as int) == Option::Some(j as int),
            Option::None => first_close(s@, from as int) is None,
        },
{
    let mut cur = from;
    while cur < len
        invariant
            from <= cur,
            len == s@.len(),
            first_close(s@, from as int) == first_close(s@, cur as int),
        decreases len - cur,
    {
        if s.get_char(cur) == '}' {
            return Option::Some(cur);
        }
        cur = cur + 1;
    }
    Option::None
}

/// Executable check that `s[lo..hi]` is a valid variable name.
fn name_ok(s: &str, len: usize, lo: usize, hi: usize) -> (r: bool)
    requires
        len == s@.len(),
        lo <= hi <= len,
    ensures
        r == valid_name(s@.subrange(lo as int, hi as int)),
{
    let ghost sub = s@.subrange(lo as int, hi as int);
    let mut m = lo;
    while m < hi
        invariant
            lo <= m <= hi <= s@.len(),
            sub == s@.subrange(lo as int, hi as int),
            forall|x: int| 0 <= x < m - lo ==> is_name_char(sub[x]),
        decreases hi - m,
    {
        let c = s.get_char(m);
        proof {
            assert(sub[m - lo] == s@[m as int]);
        }
        if !name_char(c) {
            assert(!is_name_char(sub[m - lo]));
            return false;
        }
        m = m + 1;
    }
    true
}

/// Executable scan for the next well-formed `${name}` marker.
fn scan_str(s: &str, len: usize) -> (r: Option<(usize, usize)>)
    requires
        len == s@.len(),
    ensures
        match r {
            Option::Some(p) => scan_from(s@, 0) == Option::Some((p.0 as int, p.1 as int)) && p.0
                < len && p.1 < len,
            Option::None => scan_from(s@, 0) is None,
        },
{
    let mut from: usize = 0;
    while from < len && from + 1 < len
        invariant
            from <= len,
            len == s@.len(),
            scan_from(s@, 0) == scan_from(s@, from as int),
        decreases len - from,
    {
        let c0 = s.get_char(from);
        let c1 = s.get_char(from + 1);
        if c0 == '$' && c1 == '{' {
            match find_close(s, len, from) {
                Option::None => {
                    return Option::None;
                },
                Option::Some(j) => {
                    proof {
                        lemma_first_close_props(s@, from as int, j as int);
                        assert(s@[from as int] != '}');
                        assert(s@[from as int + 1] != '}');
                        assert(j >= from + 2);
                    }
                    if name_ok(s, len, from + 2, j) {
                        return Option::Some((from, j));
                    }
                    from = from + 2;
                },
            }
        } else {
            from = from + 1;
        }
    }
    Option::None
}

impl VariableInterpolation {
    /// Parse a template string into its segments.
    pub fn parse(input: &str) -> (r: Self)
        ensures
            r@ == parse_parts(input@),
    {
        let mut parts: Vec<InterpolationPart> = Vec::new();
        let mut rest: &str = input;
        let mut rest_len: usize = input.unicode_len();
        proof {
            assert(parts.deep_view() =~= Seq::<PartView>::empty());
        }
        while rest_len > 0
            invariant
                rest_len == rest@.len(),
                parts.deep_view() + parse_parts(rest@) == parse_parts(input@),
            decreases rest_len,
        {
            let ghost cur = rest@;
            match scan_str(rest, rest_len) {
                Option::None => {
                    let ghost pre = parts@;
                    let ghost predv = parts.deep_view();
                    parts.push(InterpolationPart::Literal(rest.to_owned()));
                    proof {
                        assert(parse_parts(cur) == seq![PartView::Literal(cur)]);
                        assert forall|k: int| 0 <= k < parts@.len() implies parts.deep_view()[k]
                            == (predv + seq![PartView::Literal(cur)])[k] by {
                            assert(parts.deep_view()[k] == parts@[k].deep_view());
                            if k < pre.len() {
                                assert(parts@[k] == pre[k]);
                                assert(predv[k] == pre[k].deep_view());
                            }
                        }
                        assert(parts.deep_view() =~= predv + seq![PartView::Literal(cur)]);
                        assert(predv + parse_parts(cur) =~= parts.deep_view());
                    }
                    rest = rest.substring_char(rest_len, rest_len);
                    rest_len = 0;
                    proof {
                        assert(rest@ =~= Seq::<char>::empty());
                        assert(parse_parts(rest@) =~= Seq::<PartView>::empty());
                        assert(parts.deep_view() + parse_parts(rest@) =~= parts.deep_view());
                    }
                },
                Option::Some((i, j)) => {
                    proof {
                        lemma_scan_bounds(cur, 0, i as int, j as int);
                    }
                    let ghost pre0 = parts@;
                    let ghost predv0 = parts.deep_view();
                    if i > 0 {
                        let lit = rest.substring_char(0, i).to_owned();
                        parts.push(InterpolationPart::Literal(lit));
                        proof {
                            assert forall|k: int| 0 <= k < parts@.len() implies parts.deep_view()[k]
                                == (predv0 + seq![PartView::Literal(cur.subrange(0, i as int))])[k]
                            by {
                                assert(parts.deep_view()[k] == parts@[k].deep_view());
                                if k < pre0.len() {
                                    assert(parts@[k] == pre0[k]);
                                    assert(predv0[k] == pre0[k].deep_view());
                                }
                            }
                            assert(parts.deep_view() =~= predv0 + seq![
                                PartView::Literal(cur.subrange(0, i as int)),
                            ]);
                        }
                    } else {
                        proof {
                            assert(parts.deep_view() =~= predv0 + Seq::<PartView>::empty());
                        }
                    }
                    let ghost litseq = if i > 0 {
                        seq![PartView::Literal(cur.subrange(0, i as int))]
                    } else {
                        Seq::<PartView>::empty()
                    };
                    let ghost pre1 = parts@;
                    let ghost predv1 = parts.deep_view();
                    let name = rest.substring_char(i + 2, j).to_owned();
                    parts.push(InterpolationPart::Variable(name));
                    proof {
                        assert forall|k: int| 0 <= k < parts@.len() implies parts.deep_view()[k]
                            == (predv1 + seq![
                            PartView::Variable(cur.subrange(i + 2, j as int)),
                        ])[k] by {
                            assert(parts.deep_view()[k] == parts@[k].deep_view());
                            if k < pre1.len() {
                                assert(parts@[k] == pre1[k]);
                                assert(predv1[k] == pre1[k].deep_view());
                            }
                        }
                        assert(parts.deep_view() =~= predv1 + seq![
                            PartView::Variable(cur.subrange(i + 2, j as int)),
                        ]);
                    }
                    let new_rest = rest.substring_char(j + 1, rest_len);
                    rest = new_rest;
                    rest_len = rest_len - (j + 1);
                    proof {
                        assert(rest@ =~= cur.subrange(j as int + 1, cur.len() as int));
                        assert(parse_parts(cur) == litseq + seq![
                            PartView::Variable(cur.subrange(i + 2, j as int)),
                        ] + parse_parts(cur.subrange(j as int + 1, cur.len() as int)));
                        assert(parts.deep_view() =~= predv0 + litseq + seq![
                            PartView::Variable(cur.subrange(i + 2, j as int)),
                        ]);
                        assert(parts.deep_view() + parse_parts(rest@) =~= predv0 + parse_parts(
                            cur,
                        ));
                    }
                },
            }
        }
        proof {
            assert(parse_parts(rest@) =~= Seq::<PartView>::empty());
            assert(parts.deep_view() + parse_parts(rest@) =~= parts.deep_view());
        }
        VariableInterpolation { parts }
    }

    /// Evaluate the template: literal segments are copied, each variable is
    /// resolved through `lookup`, and a miss reproduces the original
    /// `${name}` text.  With a lookup that can only miss, the result is the
    /// template's own bytes.
    pub fn interpolate<'a, L: Fn(&str) -> Option<&'a [u8]>>(&self, lookup: L) -> (r: Vec<u8>)
        requires
            forall|s: &str| has_var(self@, s@) ==> call_requires(lookup, (s,)),
        ensures
            exists|vals: Seq<Option<Seq<u8>>>|
                vals.len() == self@.len() && consistent_vals(lookup, self@, vals) && r@
                    == interp_bytes(self@, vals),
            (forall|s: &str, o: Option<&'a [u8]>| call_ensures(lookup, (s,), o) ==> o is None)
                ==> r@ == unresolved_bytes(self@),
    {
        let mut out: Vec<u8> = Vec::new();
        let ghost mut vals: Seq<Option<Seq<u8>>> = Seq::empty();
        let mut idx: usize = 0;
        proof {
            assert(interp_bytes(self@.take(0), vals.take(0)) =~= Seq::<u8>::empty());
        }
        while idx < self.parts.len()
            invariant
                0 <= idx <= self.parts@.len(),
                self@.len() == self.parts@.len(),
                vals.len() == idx,
                forall|s: &str| has_var(self@, s@) ==> call_requires(lookup, (s,)),
                consistent_vals(lookup, self@.take(idx as int), vals),
                out@ == interp_bytes(self@.take(idx as int), vals),
            decreases self.parts@.len() - idx,
        {
            let ghost oldvals = vals;
            let ghost oldout = out@;
            proof {
                assert(self@[idx as int] == self.parts@[idx as int].deep_view());
            }
            match &self.parts[idx] {
                InterpolationPart::Literal(l) => {
                    append_bytes(&mut out, l.as_str().as_bytes());
                    proof {
                        vals = vals.push(Option::None);
                        assert(part_bytes(self@[idx as int], Option::None) == encode_utf8(l@));
                    }
                },
                InterpolationPart::Variable(n) => {
                    proof {
                        assert(self@[idx as int] == PartView::Variable(n@));
                        assert(has_var(self@, n@)) by {
                            assert(self@[idx as int] == PartView::Variable(n@));
                        }
                    }
                    let name_ref = n.as_str();
                    let o = lookup(name_ref);
                    proof {
                        vals = vals.push(opt_bytes_view(o));
                        assert(could_return(lookup, n@, opt_bytes_view(o))) by {
                            assert(name_ref@ == n@ && call_ensures(lookup, (name_ref,), o)
                                && opt_bytes_view(o) == opt_bytes_view(o));
                        }
                    }
                    match o {
                        Option::Some(b) => {
                            append_bytes(&mut out, b);
                            proof {
                                assert(part_bytes(self@[idx as int], opt_bytes_view(o)) == b@);
                            }
                        },
                        Option::None => {
                            append_bytes(&mut out, "${".as_bytes());
                            append_bytes(&mut out, n.as_str().as_bytes());
                            append_bytes(&mut out, "}".as_bytes());
                            proof {
                                assert(part_bytes(self@[idx as int], opt_bytes_view(o))
                                    == encode_utf8("${"@) + encode_utf8(n@) + encode_utf8("}"@));
                                assert(out@ =~= oldout + part_bytes(
                                    self@[idx as int],
                                    opt_bytes_view(o),
                                ));
                            }
                        },
                    }
                },
            }
            proof {
                assert(vals.drop_last() =~= oldvals);
                assert(self@.take(idx + 1).drop_last() =~= self@.take(idx as int));
                assert(self@.take(idx + 1).last() == self@[idx as int]);
                assert(out@ == interp_bytes(self@.take(idx + 1), vals));
                assert forall|q: int|
                    0 <= q < idx + 1 && self@.take(idx + 1)[q] is Variable implies could_return(
                    lookup,
                    var_name(self@.take(idx + 1)[q]),
                    vals[q],
                ) by {
                    if q < idx {
                        assert(self@.take(idx as int)[q] == self@.take(idx + 1)[q]);
                        assert(vals[q] == oldvals[q]);
                    }
                }
            }
            idx = idx + 1;
        }
        proof {
            assert(self@.take(self@.len() as int) =~= self@);
        }
        let ghost finalvals = vals;
        proof {
            if forall|s: &str, o: Option<&'a [u8]>| call_ensures(lookup, (s,), o) ==> o is None {
                assert forall|q: int|
                    0 <= q < self@.len() && self@[q] is Variable implies finalvals[q] is None by {
                    assert(could_return(lookup, var_name(self@[q]), finalvals[q]));
                    let (s, o): (&str, Option<&'a [u8]>) = choose|s: &str, o: Option<&'a [u8]>|
                        s@ == var_name(self@[q]) && call_ensures(lookup, (s,), o)
                            && opt_bytes_view(o) == finalvals[q];
                    assert(o is None);
                }
                lemma_interp_all_none(self@, finalvals);
            }
        }
        out
    }
}

impl From<&str> for VariableInterpolation {
    /// Parse a template string.
    fn from(value: &str) -> Self {
        VariableInterpolation::parse(value)
    }
}

impl vstd::std_specs::convert::FromSpecImpl<&str> for VariableInterpolation {
    open spec fn obeys_from_spec() -> bool {
        false
    }

    open spec fn from_spec(value: &str) -> Self {
        arbitrary()
    }
}

} // verus!
