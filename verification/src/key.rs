//! Structured metric keys: a name and a set of label pairs.

use vstd::prelude::*;

verus! {

/// One label: its name and its value.
pub type LabelPair = (String, String);

/// What one label holds.
pub type PairSpec = (Seq<char>, Seq<char>);

/// A metric's name with its labels, in the order in which they were given.
#[derive(Debug)]
pub struct MetricKey {
    pub name: String,
    pub labels: Vec<LabelPair>,
}

/// What a key holds: the characters of its name and of each label pair.
pub struct KeySpec {
    pub name: Seq<char>,
    pub labels: Seq<PairSpec>,
}

/// What a list of label pairs holds.
pub open spec fn pairs_view(labels: Seq<LabelPair>) -> Seq<PairSpec> {
    Seq::new(labels.len(), |i: int| (labels[i].0@, labels[i].1@))
}

impl KeySpec {
    /// Whether two keys name the same metric: the names are equal and each
    /// label pair of one occurs among those of the other, in whatever order
    /// and however often.
    pub open spec fn same_as(self, other: KeySpec) -> bool {
        &&& self.name == other.name
        &&& forall|p: PairSpec| self.labels.contains(p) <==> other.labels.contains(p)
    }

    /// The key without a name or labels, which stands in for a key that
    /// cannot be found.
    pub open spec fn unnamed() -> KeySpec {
        KeySpec { name: Seq::empty(), labels: Seq::empty() }
    }
}

impl View for MetricKey {
    type V = KeySpec;

    open spec fn view(&self) -> KeySpec {
        KeySpec { name: self.name@, labels: pairs_view(self.labels@) }
    }
}

/// Whether two strings hold the same text.
pub fn same_text(a: &str, b: &str) -> (r: bool)
    ensures
        r == (a@ == b@),
{
    let left: &[u8] = a.as_bytes();
    let right: &[u8] = b.as_bytes();
    proof {
        vstd::utf8::encode_utf8_decode_utf8(a@);
        vstd::utf8::encode_utf8_decode_utf8(b@);
    }
    if left.len() != right.len() {
        return false;
    }
    let mut i: usize = 0;
    while i < left.len()
        invariant
            i <= left.len(),
            left.len() == right.len(),
            left@ == vstd::utf8::encode_utf8(a@),
            right@ == vstd::utf8::encode_utf8(b@),
            forall|j: int| 0 <= j < i ==> left@[j] == right@[j],
        decreases left.len() - i,
    {
        if left[i] != right[i] {
            return false;
        }
        i += 1;
    }
    assert(left@ =~= right@);
    true
}

/// Whether `labels` holds the pair of `name` and `value`.
pub fn has_pair(labels: &[LabelPair], name: &String, value: &String) -> (r: bool)
    ensures
        r == pairs_view(labels@).contains((name@, value@)),
{
    let mut i: usize = 0;
    while i < labels.len()
        invariant
            i <= labels.len(),
            forall|j: int| 0 <= j < i ==> pairs_view(labels@)[j] != (name@, value@),
        decreases labels.len() - i,
    {
        if labels[i].0 == *name && labels[i].1 == *value {
            assert(pairs_view(labels@)[i as int] == (name@, value@));
            return true;
        }
        i += 1;
    }
    false
}

/// Whether every pair of `a` occurs in `b`.
pub fn pairs_within(a: &[LabelPair], b: &[LabelPair]) -> (r: bool)
    ensures
        r == (forall|p: PairSpec| pairs_view(a@).contains(p) ==> pairs_view(b@).contains(p)),
{
    let mut i: usize = 0;
    while i < a.len()
        invariant
            i <= a.len(),
            forall|j: int| 0 <= j < i ==> pairs_view(b@).contains(#[trigger] pairs_view(a@)[j]),
        decreases a.len() - i,
    {
        if !has_pair(b, &a[i].0, &a[i].1) {
            assert(pairs_view(a@).contains(pairs_view(a@)[i as int]));
            return false;
        }
        i += 1;
    }
    true
}

impl MetricKey {
    /// The key of a metric without labels.
    pub fn from_name(name: &str) -> (r: MetricKey)
        ensures
            r@ == (KeySpec { name: name@, labels: Seq::empty() }),
    {
        let r = MetricKey { name: name.to_owned(), labels: Vec::new() };
        assert(r@.labels =~= Seq::empty());
        r
    }

    /// The key of the metric `name` with `labels`, kept in the order given.
    pub fn from_parts(name: &str, labels: &[(&str, &str)]) -> (r: MetricKey)
        ensures
            r@.name == name@,
            r@.labels == Seq::new(labels@.len(), |i: int| (labels@[i].0@, labels@[i].1@)),
    {
        let mut owned: Vec<LabelPair> = Vec::new();
        let mut i: usize = 0;
        while i < labels.len()
            invariant
                i <= labels.len(),
                owned.len() == i,
                forall|j: int|
                    0 <= j < i ==> (#[trigger] owned@[j]).0@ == labels@[j].0@ && owned@[j].1@
                        == labels@[j].1@,
            decreases labels.len() - i,
        {
            let label: String = labels[i].0.to_owned();
            let value: String = labels[i].1.to_owned();
            let ghost before = owned@;
            owned.push((label, value));
            assert forall|j: int| 0 <= j < i + 1 implies (#[trigger] owned@[j]).0@
                == labels@[j].0@ && owned@[j].1@ == labels@[j].1@ by {
                if j < i {
                    assert(owned@[j] == before[j]);
                }
            }
            i += 1;
        }
        let r = MetricKey { name: name.to_owned(), labels: owned };
        assert(r@.labels =~= Seq::new(labels@.len(), |i: int| (labels@[i].0@, labels@[i].1@)));
        r
    }

    /// The metric's name.
    pub fn name(&self) -> (r: &str)
        ensures
            r@ == self@.name,
    {
        self.name.as_str()
    }

    /// The key without a name or labels.
    pub fn unnamed() -> (r: MetricKey)
        ensures
            r@ == KeySpec::unnamed(),
    {
        let r = MetricKey { name: String::new(), labels: Vec::new() };
        assert(r@.labels =~= Seq::empty());
        r
    }
}

/// A copy of `labels`.
pub fn clone_pairs(labels: &[LabelPair]) -> (r: Vec<LabelPair>)
    ensures
        pairs_view(r@) == pairs_view(labels@),
{
    let mut copy: Vec<LabelPair> = Vec::new();
    let mut i: usize = 0;
    while i < labels.len()
        invariant
            i <= labels.len(),
            copy.len() == i,
            forall|j: int| 0 <= j < i ==> pairs_view(copy@)[j] == pairs_view(labels@)[j],
        decreases labels.len() - i,
    {
        copy.push((labels[i].0.clone(), labels[i].1.clone()));
        i += 1;
    }
    assert(pairs_view(copy@) =~= pairs_view(labels@));
    copy
}

impl Clone for MetricKey {
    fn clone(&self) -> (r: MetricKey)
        ensures
            r@ == self@,
    {
        MetricKey { name: self.name.clone(), labels: clone_pairs(self.labels.as_slice()) }
    }
}

impl PartialEq for MetricKey {
    fn eq(&self, other: &MetricKey) -> (r: bool) {
        if !(self.name == other.name) {
            return false;
        }
        let mine: &[LabelPair] = self.labels.as_slice();
        let theirs: &[LabelPair] = other.labels.as_slice();
        let forth: bool = pairs_within(mine, theirs);
        let back: bool = pairs_within(theirs, mine);
        assert(pairs_view(mine@) == self@.labels);
        assert(pairs_view(theirs@) == other@.labels);
        forth && back
    }
}

impl vstd::std_specs::cmp::PartialEqSpecImpl for MetricKey {
    open spec fn obeys_eq_spec() -> bool {
        true
    }

    open spec fn eq_spec(&self, other: &MetricKey) -> bool {
        self@.same_as(other@)
    }
}

/// Naming the same metric is an equivalence: every key names the metric that
/// it names, and keys that name the same metric as a third name the same.
pub proof fn lemma_same_as_equivalence(a: KeySpec, b: KeySpec, c: KeySpec)
    ensures
        a.same_as(a),
        a.same_as(b) ==> b.same_as(a),
        a.same_as(b) && b.same_as(c) ==> a.same_as(c),
{
}

/// The order of the label pairs does not matter to the metric that a key
/// names, nor does a pair that is given twice.
pub proof fn lemma_same_as_any_order(a: KeySpec, b: KeySpec)
    requires
        a.name == b.name,
        a.labels.to_set() == b.labels.to_set(),
    ensures
        a.same_as(b),
{
    assert forall|p: PairSpec| a.labels.contains(p) <==> b.labels.contains(p) by {
        assert(a.labels.to_set().contains(p) <==> a.labels.contains(p));
        assert(b.labels.to_set().contains(p) <==> b.labels.contains(p));
    }
}

} // verus!
