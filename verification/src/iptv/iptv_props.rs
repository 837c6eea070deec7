//! The attribute mapping of an IPTV extended-info line: unique keys,
//! iterated in lexicographic key order.
//!
//! The lexicographic (not insertion) order is a deliberate invariant:
//! it fixes the serialization order of the attributes.

use vstd::prelude::*;
use vstd::string::*;

use crate::text::{
    lemma_lex_asym, lemma_lex_irrefl, lemma_lex_total, lemma_lex_trans, lex_lt, str_eq,
    str_lex_lt,
};

verus! {

/// The pairs a vector of owned strings holds, as sequences of
/// characters.
pub open spec fn pairs_view(v: Seq<(String, String)>) -> Seq<(Seq<char>, Seq<char>)> {
    v.map_values(|p: (String, String)| (p.0@, p.1@))
}

/// Keys strictly increase in the lexicographic code-point order, so
/// they are also unique.
pub open spec fn props_sorted(m: Seq<(Seq<char>, Seq<char>)>) -> bool {
    forall|i: int, j: int| 0 <= i < j < m.len() ==> lex_lt(m[i].0, m[j].0)
}

/// Insertion into the ordered mapping: a duplicate key keeps its
/// place and takes the new value (last write wins); a new key enters
/// at its ordered position.
pub open spec fn props_insert(
    m: Seq<(Seq<char>, Seq<char>)>,
    k: Seq<char>,
    v: Seq<char>,
) -> Seq<(Seq<char>, Seq<char>)>
    decreases m.len(),
{
    if m.len() == 0 {
        seq![(k, v)]
    } else if lex_lt(k, m[0].0) {
        seq![(k, v)] + m
    } else if k == m[0].0 {
        seq![(k, v)] + m.drop_first()
    } else {
        seq![m[0]] + props_insert(m.drop_first(), k, v)
    }
}

/// The value under a key, scanning from position `i`.
pub open spec fn props_get_from(
    m: Seq<(Seq<char>, Seq<char>)>,
    k: Seq<char>,
    i: int,
) -> Option<Seq<char>>
    decreases m.len() - i,
{
    if !(0 <= i < m.len()) {
        None
    } else if m[i].0 == k {
        Some(m[i].1)
    } else {
        props_get_from(m, k, i + 1)
    }
}

/// The value under a key, if the key is present.
pub open spec fn props_get(m: Seq<(Seq<char>, Seq<char>)>, k: Seq<char>) -> Option<Seq<char>> {
    props_get_from(m, k, 0)
}

/// Where ordered insertion puts the pair, given the first position
/// whose key is not below the new key.
pub proof fn lemma_props_insert_at(
    m: Seq<(Seq<char>, Seq<char>)>,
    k: Seq<char>,
    v: Seq<char>,
    idx: int,
)
    requires
        0 <= idx <= m.len(),
        forall|t: int| 0 <= t < idx ==> lex_lt(m[t].0, k),
        idx < m.len() ==> !lex_lt(m[idx].0, k),
    ensures
        idx < m.len() && m[idx].0 == k ==> props_insert(m, k, v) =~= m.update(idx, (k, v)),
        !(idx < m.len() && m[idx].0 == k) ==> props_insert(m, k, v) =~= m.insert(idx, (k, v)),
    decreases idx,
{
    if idx == 0 {
        if m.len() == 0 {
            assert(props_insert(m, k, v) =~= m.insert(0, (k, v)));
        } else if m[0].0 == k {
            lemma_lex_irrefl(k);
            assert(!lex_lt(k, m[0].0));
            assert(props_insert(m, k, v) =~= m.update(0, (k, v)));
        } else {
            lemma_lex_total(m[0].0, k);
            assert(lex_lt(k, m[0].0));
            assert(props_insert(m, k, v) =~= m.insert(0, (k, v)));
        }
    } else {
        assert(lex_lt(m[0].0, k));
        lemma_lex_asym(m[0].0, k);
        assert(!lex_lt(k, m[0].0));
        assert(k != m[0].0) by {
            if k == m[0].0 {
                lemma_lex_irrefl(k);
            }
        }
        let md = m.drop_first();
        assert(forall|t: int| 0 <= t < idx - 1 ==> md[t] == m[t + 1]);
        assert(idx - 1 < md.len() ==> md[idx - 1] == m[idx]);
        lemma_props_insert_at(md, k, v, idx - 1);
        if idx < m.len() && m[idx].0 == k {
            assert(props_insert(m, k, v) =~= m.update(idx, (k, v)));
        } else {
            assert(props_insert(m, k, v) =~= m.insert(idx, (k, v)));
        }
    }
}

/// Inserting a key above every key of the mapping appends the pair.
pub proof fn lemma_props_insert_append(m: Seq<(Seq<char>, Seq<char>)>, k: Seq<char>, v: Seq<char>)
    requires
        forall|t: int| 0 <= t < m.len() ==> lex_lt(#[trigger] m[t].0, k),
    ensures
        props_insert(m, k, v) == m.push((k, v)),
{
    lemma_props_insert_at(m, k, v, m.len() as int);
    assert(props_insert(m, k, v) =~= m.insert(m.len() as int, (k, v)));
    assert(m.insert(m.len() as int, (k, v)) =~= m.push((k, v)));
}

/// The serialized form of one attribute: ` key="value"`.
pub open spec fn attr_text(k: Seq<char>, v: Seq<char>) -> Seq<char> {
    seq![' '] + k + seq!['=', '"'] + v + seq!['"']
}

/// The serialized form of the whole mapping, one attribute after the
/// other in mapping order.
pub open spec fn spec_props_text(m: Seq<(Seq<char>, Seq<char>)>) -> Seq<char>
    decreases m.len(),
{
    if m.len() == 0 {
        Seq::empty()
    } else {
        attr_text(m[0].0, m[0].1) + spec_props_text(m.drop_first())
    }
}

/// Serializing one more attribute appends its text.
pub proof fn lemma_props_text_snoc(m: Seq<(Seq<char>, Seq<char>)>, i: int)
    requires
        0 <= i < m.len(),
    ensures
        spec_props_text(m.take(i + 1)) == spec_props_text(m.take(i)) + attr_text(m[i].0, m[i].1),
    decreases i,
{
    if i == 0 {
        assert(m.take(1)[0] == m[0]);
        assert(m.take(1).drop_first() =~= Seq::<(Seq<char>, Seq<char>)>::empty());
        assert(m.take(0) =~= Seq::<(Seq<char>, Seq<char>)>::empty());
        assert(spec_props_text(m.take(1)) =~= spec_props_text(m.take(0)) + attr_text(
            m[0].0,
            m[0].1,
        ));
    } else {
        let md = m.drop_first();
        assert(m.take(i + 1)[0] == m[0]);
        assert(m.take(i)[0] == m[0]);
        assert(m.take(i + 1).drop_first() =~= md.take(i));
        assert(m.take(i).drop_first() =~= md.take(i - 1));
        lemma_props_text_snoc(md, i - 1);
        assert(md[i - 1] == m[i]);
        assert(spec_props_text(m.take(i + 1)) == attr_text(m[0].0, m[0].1) + (spec_props_text(
            md.take(i - 1),
        ) + attr_text(m[i].0, m[i].1)));
        assert(attr_text(m[0].0, m[0].1) + (spec_props_text(md.take(i - 1)) + attr_text(
            m[i].0,
            m[i].1,
        )) =~= (attr_text(m[0].0, m[0].1) + spec_props_text(md.take(i - 1))) + attr_text(
            m[i].0,
            m[i].1,
        ));
    }
}

/// The serialized mapping cuts at any position into the text of the
/// pairs before it and the text of the pairs from it on.
pub proof fn lemma_props_text_split(m: Seq<(Seq<char>, Seq<char>)>, i: int)
    requires
        0 <= i <= m.len(),
    ensures
        spec_props_text(m) == spec_props_text(m.take(i)) + spec_props_text(m.skip(i)),
    decreases i,
{
    if i == 0 {
        assert(m.take(0) =~= Seq::<(Seq<char>, Seq<char>)>::empty());
        assert(m.skip(0) =~= m);
        assert(spec_props_text(m.take(0)) + spec_props_text(m.skip(0)) =~= spec_props_text(m));
    } else {
        let md = m.drop_first();
        lemma_props_text_split(md, i - 1);
        assert(m.take(i)[0] == m[0]);
        assert(m.take(i).drop_first() =~= md.take(i - 1));
        assert(m.skip(i) =~= md.skip(i - 1));
        assert(spec_props_text(m.take(i)) == attr_text(m[0].0, m[0].1) + spec_props_text(
            md.take(i - 1),
        ));
        assert((attr_text(m[0].0, m[0].1) + spec_props_text(md.take(i - 1))) + spec_props_text(
            md.skip(i - 1),
        ) =~= attr_text(m[0].0, m[0].1) + (spec_props_text(md.take(i - 1)) + spec_props_text(
            md.skip(i - 1),
        )));
    }
}

/// The properties for IPTV compatible players: a mapping of unique
/// keys to text values, iterated in lexicographic key order.
#[derive(Debug)]
pub struct IptvProps(Vec<(String, String)>);

impl View for IptvProps {
    type V = Seq<(Seq<char>, Seq<char>)>;

    closed spec fn view(&self) -> Seq<(Seq<char>, Seq<char>)> {
        pairs_view(self.0@)
    }
}

impl PartialEq for IptvProps {
    fn eq(&self, other: &IptvProps) -> (r: bool) {
        if self.0.len() != other.0.len() {
            assert(self@.len() != other@.len());
            return false;
        }
        let n = self.0.len();
        let mut i: usize = 0;
        while i < n
            invariant
                i <= n,
                n == self.0@.len(),
                n == other.0@.len(),
                forall|t: int| 0 <= t < i ==> self@[t] == other@[t],
            decreases n - i,
        {
            if !str_eq(self.0[i].0.as_str(), other.0[i].0.as_str()) {
                assert(self@[i as int].0 != other@[i as int].0);
                return false;
            }
            if !str_eq(self.0[i].1.as_str(), other.0[i].1.as_str()) {
                assert(self@[i as int].1 != other@[i as int].1);
                return false;
            }
            assert(self@[i as int] == other@[i as int]);
            i = i + 1;
        }
        proof {
            assert(self@ =~= other@);
        }
        true
    }
}

impl vstd::std_specs::cmp::PartialEqSpecImpl for IptvProps {
    open spec fn obeys_eq_spec() -> bool {
        true
    }

    open spec fn eq_spec(&self, other: &IptvProps) -> bool {
        self@ == other@
    }
}

impl Clone for IptvProps {
    fn clone(&self) -> (r: IptvProps)
        ensures
            r@ == self@,
    {
        let n = self.0.len();
        let mut out: Vec<(String, String)> = Vec::new();
        let mut i: usize = 0;
        while i < n
            invariant
                i <= n,
                n == self.0@.len(),
                out@.len() == i,
                pairs_view(out@) =~= self@.take(i as int),
            decreases n - i,
        {
            let ghost prev = out@;
            let k2 = self.0[i].0.clone();
            let v2 = self.0[i].1.clone();
            out.push((k2, v2));
            proof {
                assert forall|t: int| 0 <= t < i + 1 implies pairs_view(out@)[t] == self@.take(
                    i + 1,
                )[t] by {
                    if t < i {
                        assert(prev.push((k2, v2))[t] == prev[t]);
                        assert(pairs_view(prev)[t] == self@.take(i as int)[t]);
                    } else {
                        assert(prev.push((k2, v2))[t] == (k2, v2));
                        assert(out@[t] == (self.0@[i as int].0, self.0@[i as int].1));
                    }
                }
                assert(pairs_view(out@) =~= self@.take(i + 1));
            }
            i = i + 1;
        }
        proof {
            assert(self@.take(n as int) =~= self@);
        }
        IptvProps(out)
    }
}

impl IptvProps {
    /// The mapping keeps its keys strictly increasing.
    pub open spec fn wf(&self) -> bool {
        props_sorted(self@)
    }

    /// An empty mapping.
    pub fn new() -> (r: Self)
        ensures
            r@ == Seq::<(Seq<char>, Seq<char>)>::empty(),
            r.wf(),
    {
        IptvProps(Vec::new())
    }

    /// First position whose key is not below the given one.
    fn lower_bound(&self, key: &str) -> (idx: usize)
        ensures
            idx <= self@.len(),
            forall|t: int| 0 <= t < idx ==> lex_lt(self@[t].0, key@),
            idx < self@.len() ==> !lex_lt(self@[idx as int].0, key@),
    {
        let n = self.0.len();
        let mut idx: usize = 0;
        while idx < n && str_lex_lt(self.0[idx].0.as_str(), key)
            invariant
                idx <= n,
                n == self.0@.len(),
                forall|t: int| 0 <= t < idx ==> lex_lt(self@[t].0, key@),
            decreases n - idx,
        {
            idx = idx + 1;
        }
        idx
    }

    /// Put a value under a key. A key already present keeps its place
    /// and takes the new value; a new key enters at its ordered
    /// position.
    pub fn insert(&mut self, key: String, val: String)
        requires
            old(self).wf(),
        ensures
            final(self).wf(),
            final(self)@ == props_insert(old(self)@, key@, val@),
    {
        let ghost m = self@;
        let idx = self.lower_bound(key.as_str());
        let replace = idx < self.0.len() && str_eq(self.0[idx].0.as_str(), key.as_str());
        proof {
            lemma_props_insert_at(m, key@, val@, idx as int);
        }
        if replace {
            self.0.remove(idx);
            self.0.insert(idx, (key, val));
            proof {
                assert(self@ =~= m.update(idx as int, (key@, val@)));
                assert forall|i: int, j: int| 0 <= i < j < self@.len() implies lex_lt(
                    self@[i].0,
                    self@[j].0,
                ) by {
                    assert(m[idx as int].0 == key@);
                }
            }
        } else {
            self.0.insert(idx, (key, val));
            proof {
                assert(self@ =~= m.insert(idx as int, (key@, val@)));
                assert(idx < m.len() ==> m[idx as int].0 != key@);
                assert(idx < m.len() ==> lex_lt(key@, m[idx as int].0)) by {
                    if idx < m.len() {
                        lemma_lex_total(m[idx as int].0, key@);
                    }
                }
                assert forall|i: int, j: int| 0 <= i < j < self@.len() implies lex_lt(
                    self@[i].0,
                    self@[j].0,
                ) by {
                    let n = idx as int;
                    if i < n && j == n {
                    } else if i == n && j > n {
                        if j - 1 > n {
                            lemma_lex_trans(key@, m[n].0, m[j - 1].0);
                        }
                    }
                }
            }
        }
    }

    /// The pairs of the mapping, in mapping order.
    pub fn iter(&self) -> (r: &Vec<(String, String)>)
        ensures
            pairs_view(r@) == self@,
    {
        &self.0
    }

    /// The value under a key, if the key is present.
    pub fn get(&self, key: &str) -> (r: Option<&String>)
        ensures
            r matches Some(v) ==> props_get(self@, key@) == Some(v@),
            r is None ==> props_get(self@, key@) is None,
    {
        let n = self.0.len();
        let mut i: usize = 0;
        while i < n
            invariant
                i <= n,
                n == self.0@.len(),
                props_get_from(self@, key@, 0) == props_get_from(self@, key@, i as int),
            decreases n - i,
        {
            if str_eq(self.0[i].0.as_str(), key) {
                return Some(&self.0[i].1);
            }
            i = i + 1;
        }
        None
    }

    /// The attribute text of the mapping: ` key="value"` for each
    /// pair, in mapping order.
    pub fn to_string(&self) -> (r: String)
        ensures
            r@ == spec_props_text(self@),
    {
        let n = self.0.len();
        let mut out = String::new();
        let mut i: usize = 0;
        while i < n
            invariant
                i <= n,
                n == self.0@.len(),
                out@ == spec_props_text(self@.take(i as int)),
            decreases n - i,
        {
            proof {
                reveal_strlit(" ");
                reveal_strlit("=\"");
                reveal_strlit("\"");
                lemma_props_text_snoc(self@, i as int);
            }
            out.append(" ");
            out.append(self.0[i].0.as_str());
            out.append("=\"");
            out.append(self.0[i].1.as_str());
            out.append("\"");
            proof {
                assert(out@ =~= spec_props_text(self@.take(i as int)) + attr_text(
                    self@[i as int].0,
                    self@[i as int].1,
                ));
            }
            i = i + 1;
        }
        proof {
            assert(self@.take(n as int) =~= self@);
        }
        out
    }
}

} // verus!
