//! A label set: a string-to-string mapping with unique keys held in
//! ascending key order, so that iteration (and with it serialization) is
//! deterministic.

use vstd::prelude::*;
use crate::strutil::{lex_lt, lemma_lex_strict_order, str_eq, str_lt};

verus! {

/// The pairs are strictly ascending by key.
pub open spec fn sorted_label_pairs(s: Seq<(Seq<char>, Seq<char>)>) -> bool {
    forall|i: int, j: int| 0 <= i < j < s.len() ==> lex_lt(s[i].0, s[j].0)
}

/// Some pair of `s` is exactly `(k, v)`.
pub open spec fn has_pair(s: Seq<(Seq<char>, Seq<char>)>, k: Seq<char>, v: Seq<char>) -> bool {
    exists|i: int| 0 <= i < s.len() && s[i] == (k, v)
}

/// Some pair of `s` has the key `k`.
pub open spec fn has_key(s: Seq<(Seq<char>, Seq<char>)>, k: Seq<char>) -> bool {
    exists|i: int| 0 <= i < s.len() && s[i].0 == k
}

/// The value paired with the first occurrence of key `k`, if any.
pub open spec fn spec_lookup(s: Seq<(Seq<char>, Seq<char>)>, k: Seq<char>) -> Option<Seq<char>>
    decreases s.len(),
{
    if s.len() == 0 {
        Option::None
    } else if s[0].0 == k {
        Option::Some(s[0].1)
    } else {
        spec_lookup(s.drop_first(), k)
    }
}

/// Where the first pair with key `k` stands at `i`, the lookup yields its
/// value.
pub proof fn lemma_spec_lookup_index(s: Seq<(Seq<char>, Seq<char>)>, k: Seq<char>, i: int)
    requires
        0 <= i < s.len(),
        s[i].0 == k,
        forall|j: int| 0 <= j < i ==> s[j].0 != k,
    ensures
        spec_lookup(s, k) == Option::Some(s[i].1),
    decreases s.len(),
{
    if i > 0 {
        let t = s.drop_first();
        assert forall|j: int| 0 <= j < i - 1 implies t[j].0 != k by {
            assert(t[j] == s[j + 1]);
        }
        assert(t[i - 1] == s[i]);
        lemma_spec_lookup_index(t, k, i - 1);
    }
}

/// Where no pair has key `k`, the lookup yields nothing.
pub proof fn lemma_spec_lookup_none(s: Seq<(Seq<char>, Seq<char>)>, k: Seq<char>)
    requires
        forall|j: int| 0 <= j < s.len() ==> s[j].0 != k,
    ensures
        spec_lookup(s, k) is None,
    decreases s.len(),
{
    if s.len() > 0 {
        let t = s.drop_first();
        assert forall|j: int| 0 <= j < t.len() implies t[j].0 != k by {
            assert(t[j] == s[j + 1]);
        }
        lemma_spec_lookup_none(t, k);
    }
}

/// In a sorted pair sequence, holding a pair means the lookup finds it.
pub proof fn lemma_lookup_of_sorted(s: Seq<(Seq<char>, Seq<char>)>, k: Seq<char>, v: Seq<char>)
    requires
        sorted_label_pairs(s),
        has_pair(s, k, v),
    ensures
        spec_lookup(s, k) == Option::Some(v),
{
    let i = choose|i: int| 0 <= i < s.len() && s[i] == (k, v);
    assert forall|j: int| 0 <= j < i implies s[j].0 != k by {
        lemma_sorted_keys_unique(s, j, i);
    }
    lemma_spec_lookup_index(s, k, i);
}

/// In a sorted pair sequence, distinct positions hold distinct keys.
pub proof fn lemma_sorted_keys_unique(s: Seq<(Seq<char>, Seq<char>)>, i: int, j: int)
    requires
        sorted_label_pairs(s),
        0 <= i < s.len(),
        0 <= j < s.len(),
        i != j,
    ensures
        s[i].0 != s[j].0,
{
    if i < j {
        lemma_lex_strict_order(s[i].0, s[j].0, s[j].0);
    } else {
        lemma_lex_strict_order(s[j].0, s[i].0, s[i].0);
    }
}

/// The pair sequence that results from inserting `(k, v)` into `s` at its
/// sorted position, replacing the value when the key is present.
pub open spec fn spec_insert_pair(
    s: Seq<(Seq<char>, Seq<char>)>,
    k: Seq<char>,
    v: Seq<char>,
) -> Seq<(Seq<char>, Seq<char>)>
    decreases s.len(),
{
    if s.len() == 0 {
        seq![(k, v)]
    } else if lex_lt(s[0].0, k) {
        seq![s[0]] + spec_insert_pair(s.drop_first(), k, v)
    } else if s[0].0 == k {
        seq![(k, v)] + s.drop_first()
    } else {
        seq![(k, v)] + s
    }
}

/// Where the insertion position is known, `spec_insert_pair` is an update
/// (key present there) or a sequence insertion (key absent).
pub proof fn lemma_spec_insert_pair_at(
    s: Seq<(Seq<char>, Seq<char>)>,
    k: Seq<char>,
    v: Seq<char>,
    pos: int,
)
    requires
        sorted_label_pairs(s),
        0 <= pos <= s.len(),
        forall|j: int| 0 <= j < pos ==> lex_lt(s[j].0, k),
        pos < s.len() ==> !lex_lt(s[pos].0, k),
    ensures
        pos < s.len() && s[pos].0 == k ==> spec_insert_pair(s, k, v) == s.update(pos, (k, v)),
        !(pos < s.len() && s[pos].0 == k) ==> spec_insert_pair(s, k, v) == s.insert(pos, (k, v)),
    decreases s.len(),
{
    if s.len() == 0 {
        assert(spec_insert_pair(s, k, v) =~= s.insert(0, (k, v)));
    } else if pos == 0 {
        if s[0].0 == k {
            assert(spec_insert_pair(s, k, v) =~= s.update(0, (k, v)));
        } else {
            assert(spec_insert_pair(s, k, v) =~= s.insert(0, (k, v)));
        }
    } else {
        let t = s.drop_first();
        assert(lex_lt(s[0].0, k));
        assert forall|i2: int, j2: int| 0 <= i2 < j2 < t.len() implies lex_lt(t[i2].0, t[j2].0) by {
            assert(t[i2] == s[i2 + 1]);
            assert(t[j2] == s[j2 + 1]);
        }
        lemma_spec_insert_pair_at(t, k, v, pos - 1);
        if pos < s.len() && s[pos].0 == k {
            assert(spec_insert_pair(s, k, v) =~= s.update(pos, (k, v)));
        } else {
            assert(spec_insert_pair(s, k, v) =~= s.insert(pos, (k, v)));
        }
    }
}

/// The label set of a target group: the given labels, with the key
/// `"job"` inserted and mapped to the group's job when absent.
pub open spec fn spec_mirror_labels(
    labels: Seq<(Seq<char>, Seq<char>)>,
    job: Seq<char>,
) -> Seq<(Seq<char>, Seq<char>)> {
    if has_key(labels, "job"@) {
        labels
    } else {
        spec_insert_pair(labels, "job"@, job)
    }
}

/// A mapping from label names to label values, key-unique, iterated in
/// ascending key order.
#[derive(Debug, Clone, PartialEq, Eq)]
pub struct Labels {
    pairs: Vec<(String, String)>,
}

impl View for Labels {
    type V = Seq<(Seq<char>, Seq<char>)>;

    closed spec fn view(&self) -> Seq<(Seq<char>, Seq<char>)> {
        self.pairs@.map_values(|p: (String, String)| (p.0@, p.1@))
    }
}

impl Labels {
    /// The label set is well formed: strictly sorted by key.
    pub open spec fn wf(&self) -> bool {
        sorted_label_pairs(self@)
    }

    /// An empty label set.
    pub fn new() -> (r: Labels)
        ensures
            r@ == Seq::<(Seq<char>, Seq<char>)>::empty(),
            r.wf(),
    {
        let r = Labels { pairs: Vec::new() };
        proof {
            assert(r@ =~= Seq::<(Seq<char>, Seq<char>)>::empty());
        }
        r
    }

    /// The number of labels.
    pub fn len(&self) -> (n: usize)
        ensures
            n == self@.len(),
    {
        self.pairs.len()
    }

    /// The key of the pair at position `i`.
    pub fn key_at(&self, i: usize) -> (r: &String)
        requires
            i < self@.len(),
        ensures
            r@ == self@[i as int].0,
    {
        &self.pairs[i].0
    }

    /// The value of the pair at position `i`.
    pub fn value_at(&self, i: usize) -> (r: &String)
        requires
            i < self@.len(),
        ensures
            r@ == self@[i as int].1,
    {
        &self.pairs[i].1
    }

    /// Whether `key` is present.
    pub fn contains_key(&self, key: &str) -> (r: bool)
        ensures
            r == has_key(self@, key@),
    {
        let mut i: usize = 0;
        while i < self.pairs.len()
            invariant
                0 <= i <= self@.len(),
                self@.len() == self.pairs@.len(),
                forall|j: int| 0 <= j < i ==> self@[j].0 != key@,
            decreases self@.len() - i,
        {
            if str_eq(self.pairs[i].0.as_str(), key) {
                assert(self@[i as int].0 == key@);
                return true;
            }
            i += 1;
        }
        false
    }

    /// Looks the key up; `Some` exactly when the key is present, and the
    /// returned value is the one paired with its first occurrence.
    pub fn get(&self, key: &str) -> (r: Option<&String>)
        ensures
            match r {
                Option::Some(v) => has_pair(self@, key@, v@) && spec_lookup(self@, key@)
                    == Option::Some(v@),
                Option::None => !has_key(self@, key@) && spec_lookup(self@, key@) is None,
            },
    {
        let mut i: usize = 0;
        while i < self.pairs.len()
            invariant
                0 <= i <= self@.len(),
                self@.len() == self.pairs@.len(),
                forall|j: int| 0 <= j < i ==> self@[j].0 != key@,
            decreases self@.len() - i,
        {
            if str_eq(self.pairs[i].0.as_str(), key) {
                assert(self@[i as int] == (key@, self@[i as int].1));
                proof {
                    lemma_spec_lookup_index(self@, key@, i as int);
                }
                return Some(&self.pairs[i].1);
            }
            i += 1;
        }
        proof {
            lemma_spec_lookup_none(self@, key@);
        }
        None
    }

    /// A label set holding exactly the given pairs, in the given order.
    pub fn from_pairs(pairs: Vec<(String, String)>) -> (r: Labels)
        ensures
            r@.len() == pairs@.len(),
            forall|i: int|
                0 <= i < pairs@.len() ==> r@[i] == (pairs@[i].0@, pairs@[i].1@),
    {
        Labels { pairs }
    }

    /// Inserts the pair, replacing the value when the key is already
    /// present, and keeping the pairs sorted by key.
    pub fn insert(&mut self, key: String, value: String)
        requires
            old(self).wf(),
        ensures
            final(self).wf(),
            final(self)@ == spec_insert_pair(old(self)@, key@, value@),
            forall|k: Seq<char>, v: Seq<char>|
                has_pair(final(self)@, k, v) <==> if k == key@ {
                    v == value@
                } else {
                    has_pair(old(self)@, k, v)
                },
            has_key(old(self)@, key@) ==> final(self)@.len() == old(self)@.len(),
            !has_key(old(self)@, key@) ==> final(self)@.len() == old(self)@.len() + 1,
    {
        let mut i: usize = 0;
        loop
            invariant
                *self == *old(self),
                0 <= i <= self.pairs@.len(),
                self@.len() == self.pairs@.len(),
                forall|j: int| 0 <= j < i ==> lex_lt(self@[j].0, key@),
            ensures
                *self == *old(self),
                0 <= i <= self@.len(),
                forall|j: int| 0 <= j < i ==> lex_lt(self@[j].0, key@),
                i < self@.len() ==> !lex_lt(self@[i as int].0, key@),
            decreases self.pairs@.len() - i,
        {
            if i == self.pairs.len() {
                break;
            }
            if !str_lt(self.pairs[i].0.as_str(), key.as_str()) {
                break;
            }
            assert(lex_lt(self@[i as int].0, key@));
            i += 1;
        }
        let ghost olds = self@;
        let ghost pos = i as int;
        if i < self.pairs.len() && str_eq(self.pairs[i].0.as_str(), key.as_str()) {
            // The key is present at position `i`; replace the value.
            let ghost oldkey = olds[pos].0;
            self.pairs[i] = (key, value);
            proof {
                lemma_spec_insert_pair_at(olds, oldkey, value@, pos);
                assert(self@ =~= olds.update(pos, (oldkey, value@)));
                assert forall|m: int| 0 <= m < self@.len() implies self@[m].0 == olds[m].0 by {
                }
                assert forall|m: int| 0 <= m < olds.len() && m != pos implies olds[m].0
                    != key@ by {
                    lemma_sorted_keys_unique(olds, m, pos);
                }
                assert forall|k: Seq<char>, v: Seq<char>|
                    has_pair(self@, k, v) <==> if k == key@ {
                        v == value@
                    } else {
                        has_pair(olds, k, v)
                    } by {
                    if k == key@ {
                        if has_pair(self@, k, v) {
                            let m = choose|m: int| 0 <= m < self@.len() && self@[m] == (k, v);
                            assert(m == pos);
                        }
                        assert(self@[pos] == (key@, value@));
                    } else {
                        if has_pair(self@, k, v) {
                            let m = choose|m: int| 0 <= m < self@.len() && self@[m] == (k, v);
                            assert(olds[m] == (k, v));
                        }
                        if has_pair(olds, k, v) {
                            let m = choose|m: int| 0 <= m < olds.len() && olds[m] == (k, v);
                            assert(self@[m] == (k, v));
                        }
                    }
                }
            }
        } else {
            // The key is absent; insert the pair at the sorted position.
            proof {
                assert forall|j: int| pos <= j < olds.len() implies lex_lt(key@, olds[j].0) by {
                    if pos < olds.len() {
                        lemma_lex_strict_order(key@, olds[pos].0, olds[j].0);
                        lemma_lex_strict_order(olds[pos].0, key@, key@);
                    }
                }
                assert forall|j: int| 0 <= j < olds.len() implies olds[j].0 != key@ by {
                    if j < pos {
                        lemma_lex_strict_order(olds[j].0, key@, key@);
                    } else {
                        lemma_lex_strict_order(key@, olds[j].0, olds[j].0);
                    }
                }
            }
            self.pairs.insert(i, (key, value));
            proof {
                lemma_spec_insert_pair_at(olds, key@, value@, pos);
                assert(self@ =~= olds.insert(pos, (key@, value@)));
                assert forall|m: int| 0 <= m < self@.len() implies self@[m] == (if m < pos {
                    olds[m]
                } else if m == pos {
                    (key@, value@)
                } else {
                    olds[m - 1]
                }) by {
                }
                assert forall|i2: int, j2: int| 0 <= i2 < j2 < self@.len() implies lex_lt(
                    self@[i2].0,
                    self@[j2].0,
                ) by {
                    if i2 < pos && j2 == pos {
                    } else if i2 == pos && j2 > pos {
                    } else if i2 < pos && j2 > pos {
                        lemma_lex_strict_order(self@[i2].0, key@, olds[j2 - 1].0);
                    }
                }
                assert forall|k: Seq<char>, v: Seq<char>|
                    has_pair(self@, k, v) <==> if k == key@ {
                        v == value@
                    } else {
                        has_pair(olds, k, v)
                    } by {
                    if k == key@ {
                        assert(self@[pos] == (key@, value@));
                        if has_pair(self@, k, v) {
                            let m = choose|m: int| 0 <= m < self@.len() && self@[m] == (k, v);
                            assert(m == pos);
                        }
                    } else {
                        if has_pair(self@, k, v) {
                            let m = choose|m: int| 0 <= m < self@.len() && self@[m] == (k, v);
                            if m < pos {
                                assert(olds[m] == (k, v));
                            } else {
                                assert(olds[m - 1] == (k, v));
                            }
                        }
                        if has_pair(olds, k, v) {
                            let m = choose|m: int| 0 <= m < olds.len() && olds[m] == (k, v);
                            if m < pos {
                                assert(self@[m] == (k, v));
                            } else {
                                assert(self@[m + 1] == (k, v));
                            }
                        }
                    }
                }
                assert(!has_key(olds, key@));
            }
        }
    }

    /// An exact copy: the copy's pairs equal the original's.
    pub fn duplicate(&self) -> (r: Labels)
        ensures
            r@ == self@,
    {
        let mut pairs: Vec<(String, String)> = Vec::new();
        let mut i: usize = 0;
        while i < self.pairs.len()
            invariant
                0 <= i <= self.pairs@.len(),
                self@.len() == self.pairs@.len(),
                pairs@.len() == i,
                forall|j: int| 0 <= j < i ==> (pairs@[j].0@, pairs@[j].1@) == self@[j],
            decreases self.pairs@.len() - i,
        {
            pairs.push((self.pairs[i].0.clone(), self.pairs[i].1.clone()));
            i += 1;
        }
        let r = Labels { pairs };
        proof {
            assert(r@ =~= self@);
        }
        r
    }
}

/// Equality of two label sets as pair sequences.
pub fn labels_eq(a: &Labels, b: &Labels) -> (r: bool)
    ensures
        r == (a@ == b@),
{
    let alen = a.len();
    let blen = b.len();
    if alen != blen {
        assert(a@ != b@);
        return false;
    }
    let mut i: usize = 0;
    while i < alen
        invariant
            alen == a@.len(),
            alen == b@.len(),
            0 <= i <= alen,
            forall|j: int| 0 <= j < i ==> a@[j] == b@[j],
        decreases alen - i,
    {
        if !str_eq(a.key_at(i).as_str(), b.key_at(i).as_str()) {
            assert(a@[i as int].0 != b@[i as int].0);
            return false;
        }
        if !str_eq(a.value_at(i).as_str(), b.value_at(i).as_str()) {
            assert(a@[i as int].1 != b@[i as int].1);
            return false;
        }
        assert(a@[i as int] == b@[i as int]);
        i += 1;
    }
    proof {
        assert(a@ =~= b@);
    }
    true
}

} // verus!
