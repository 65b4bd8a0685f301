//! Attribute maps: string-keyed, string-valued collections attached to nodes
//! and edges, together with the attribute-matching predicate that treats a
//! query map as a subset pattern over a candidate map.

use vstd::prelude::*;
use crate::matching::{values_match, values_match_spec, EqualityRequirement};

verus! {

/// A mapping from attribute keys to attribute values, abstracted as a
/// `Map<Seq<char>, Seq<char>>`.  Entries are stored as an association list
/// whose keys are kept distinct.
pub struct AttributeMap {
    entries: Vec<(String, String)>,
}

/// The map described by an association list; an earlier entry shadows a
/// later one with the same key.
pub open spec fn assoc_view(s: Seq<(String, String)>) -> Map<Seq<char>, Seq<char>>
    decreases s.len(),
{
    if s.len() == 0 {
        Map::empty()
    } else {
        assoc_view(s.drop_first()).insert(s[0].0@, s[0].1@)
    }
}

impl View for AttributeMap {
    type V = Map<Seq<char>, Seq<char>>;

    closed spec fn view(&self) -> Map<Seq<char>, Seq<char>> {
        assoc_view(self.entries@)
    }
}

impl AttributeMap {
    #[verifier::type_invariant]
    spec fn keys_distinct(self) -> bool {
        forall|i: int, j: int|
            0 <= i < j < self.entries@.len() ==> (#[trigger] self.entries@[i]).0@ != (
            #[trigger] self.entries@[j]).0@
    }

    /// Creates an empty attribute map.
    pub fn new() -> (r: AttributeMap)
        ensures
            r@ == Map::<Seq<char>, Seq<char>>::empty(),
    {
        AttributeMap { entries: Vec::new() }
    }

    /// Binds `key` to `value`, replacing any existing binding for `key`.
    pub fn insert(&mut self, key: String, value: String)
        ensures
            final(self)@ == old(self)@.insert(key@, value@),
    {
        proof {
            use_type_invariant(&*self);
        }
        let mut entries: Vec<(String, String)> = Vec::new();
        std::mem::swap(&mut entries, &mut self.entries);
        let ghost orig = entries@;
        let n = entries.len();
        let mut idx: usize = 0;
        while idx < n
            invariant
                n == entries@.len(),
                entries@ == orig,
                orig == old(self).entries@,
                idx <= n,
                forall|p: int, q: int|
                    0 <= p < q < orig.len() ==> (#[trigger] orig[p]).0@ != (#[trigger] orig[q]).0@,
                forall|j: int| 0 <= j < idx ==> (#[trigger] entries@[j]).0@ != key@,
            decreases n - idx,
        {
            if entries[idx].0 == key {
                let ghost k = idx as int;
                entries[idx] = (key, value);
                proof {
                    assert forall|p: int, q: int| 0 <= p < q < entries@.len() implies (
                    #[trigger] entries@[p]).0@ != (#[trigger] entries@[q]).0@ by {
                        assert(p != k ==> entries@[p] == orig[p]);
                        assert(q != k ==> entries@[q] == orig[q]);
                        assert(entries@[k].0@ == orig[k].0@);
                    }
                    lemma_assoc_update(orig, k, entries@[k]);
                }
                self.entries = entries;
                return ;
            }
            idx = idx + 1;
        }
        entries.push((key, value));
        proof {
            assert forall|p: int, q: int| 0 <= p < q < entries@.len() implies (
            #[trigger] entries@[p]).0@ != (#[trigger] entries@[q]).0@ by {
                assert(p < orig.len() ==> entries@[p] == orig[p]);
                assert(q < orig.len() ==> entries@[q] == orig[q]);
            }
            lemma_assoc_push(orig, entries@[n as int]);
        }
        self.entries = entries;
    }

    /// Copies the map, binding for binding.
    pub fn clone(&self) -> (r: AttributeMap)
        ensures
            r@ == self@,
    {
        proof {
            use_type_invariant(self);
        }
        let n = self.entries.len();
        let mut entries: Vec<(String, String)> = Vec::new();
        let mut i: usize = 0;
        while i < n
            invariant
                n == self.entries@.len(),
                i <= n,
                entries@.len() == i,
                forall|j: int| 0 <= j < i ==> #[trigger] entries@[j] == self.entries@[j],
            decreases n - i,
        {
            entries.push((self.entries[i].0.clone(), self.entries[i].1.clone()));
            i = i + 1;
        }
        proof {
            assert(entries@ =~= self.entries@);
        }
        AttributeMap { entries }
    }

    /// Looks up the value bound to `key`, if any.
    pub fn get(&self, key: &String) -> (r: Option<&String>)
        ensures
            (match r {
                Some(v) => self@.contains_key(key@) && v@ == self@[key@],
                None => !self@.contains_key(key@),
            }),
    {
        let n = self.entries.len();
        let mut idx: usize = 0;
        while idx < n
            invariant
                n == self.entries@.len(),
                idx <= n,
                forall|j: int| 0 <= j < idx ==> (#[trigger] self.entries@[j]).0@ != key@,
            decreases n - idx,
        {
            if self.entries[idx].0 == *key {
                proof {
                    lemma_assoc_value(self.entries@, idx as int);
                }
                return Some(&self.entries[idx].1);
            }
            idx = idx + 1;
        }
        proof {
            lemma_assoc_contains(self.entries@, key@);
        }
        None
    }
}

/// Every key of the query map is present in the candidate map with a value
/// that satisfies the query value under the given mode; keys present only in
/// the candidate are ignored.
pub open spec fn maps_compatible(
    query: Map<Seq<char>, Seq<char>>,
    candidate: Map<Seq<char>, Seq<char>>,
    equality: EqualityRequirement,
) -> bool {
    forall|k: Seq<char>| #[trigger]
        query.dom().contains(k) ==> candidate.dom().contains(k) && values_match_spec(
            candidate[k],
            query[k],
            equality,
        )
}

/// The attribute predicate shared by node and edge matching: an empty or
/// absent query map is a wildcard; a non-empty query map requires a candidate
/// map whose bindings satisfy every query binding.
pub open spec fn attributes_match_spec(
    query: Option<AttributeMap>,
    candidate: Option<AttributeMap>,
    equality: EqualityRequirement,
) -> bool {
    match query {
        None => true,
        Some(qa) => qa@.is_empty() || (match candidate {
            None => false,
            Some(ca) => maps_compatible(qa@, ca@, equality),
        }),
    }
}

/// Wildcard law: a query whose attribute map is absent or empty matches any
/// candidate, whatever the candidate's attributes are.
pub proof fn lemma_wildcard_matches(
    query: Option<AttributeMap>,
    candidate: Option<AttributeMap>,
    equality: EqualityRequirement,
)
    requires
        (match query {
            None => true,
            Some(qa) => qa@.is_empty(),
        }),
    ensures
        attributes_match_spec(query, candidate, equality),
{
}

/// Attribute keys present only in the candidate never affect matching:
/// binding a key the query does not mention leaves the predicate unchanged.
pub proof fn lemma_candidate_extra_key(
    query: Map<Seq<char>, Seq<char>>,
    candidate: Map<Seq<char>, Seq<char>>,
    key: Seq<char>,
    value: Seq<char>,
    equality: EqualityRequirement,
)
    requires
        !query.dom().contains(key),
    ensures
        maps_compatible(query, candidate.insert(key, value), equality) == maps_compatible(
            query,
            candidate,
            equality,
        ),
{
    if maps_compatible(query, candidate, equality) {
        assert forall|k: Seq<char>| #[trigger]
            query.dom().contains(k) implies candidate.insert(key, value).dom().contains(k)
            && values_match_spec(candidate.insert(key, value)[k], query[k], equality) by {
            assert(k != key);
        }
    }
    if maps_compatible(query, candidate.insert(key, value), equality) {
        assert forall|k: Seq<char>| #[trigger]
            query.dom().contains(k) implies candidate.dom().contains(k) && values_match_spec(
            candidate[k],
            query[k],
            equality,
        ) by {
            assert(k != key);
        }
    }
}

/// Decides `attributes_match_spec` on concrete attribute maps.
pub fn attributes_match(
    query: &Option<AttributeMap>,
    candidate: &Option<AttributeMap>,
    equality: &EqualityRequirement,
) -> (r: bool)
    ensures
        r == attributes_match_spec(*query, *candidate, *equality),
{
    match query {
        None => true,
        Some(qa) => {
            proof {
                use_type_invariant(qa);
            }
            let qn = qa.entries.len();
            if qn == 0 {
                proof {
                    assert(qa@.dom() =~= Set::<Seq<char>>::empty());
                }
                return true;
            }
            proof {
                lemma_assoc_contains(qa.entries@, qa.entries@[0].0@);
                assert(!qa@.is_empty());
            }
            match candidate {
                None => false,
                Some(ca) => {
                    let mut idx: usize = 0;
                    while idx < qn
                        invariant
                            qn == qa.entries@.len(),
                            idx <= qn,
                            !qa@.is_empty(),
                            *query == Some(*qa),
                            *candidate == Some(*ca),
                            forall|p: int, q: int|
                                0 <= p < q < qn ==> (#[trigger] qa.entries@[p]).0@ != (
                                #[trigger] qa.entries@[q]).0@,
                            forall|j: int|
                                0 <= j < idx ==> ca@.dom().contains(
                                    (#[trigger] qa.entries@[j]).0@,
                                ) && values_match_spec(
                                    ca@[qa.entries@[j].0@],
                                    qa.entries@[j].1@,
                                    *equality,
                                ),
                        decreases qn - idx,
                    {
                        proof {
                            lemma_assoc_value(qa.entries@, idx as int);
                        }
                        match ca.get(&qa.entries[idx].0) {
                            None => {
                                return false;
                            },
                            Some(cv) => {
                                if !values_match(cv, &qa.entries[idx].1, equality) {
                                    return false;
                                }
                            },
                        }
                        idx = idx + 1;
                    }
                    proof {
                        assert forall|k: Seq<char>| #[trigger]
                            qa@.dom().contains(k) implies ca@.dom().contains(k)
                            && values_match_spec(ca@[k], qa@[k], *equality) by {
                            lemma_assoc_contains(qa.entries@, k);
                            let i = choose|i: int|
                                0 <= i < qa.entries@.len() && (#[trigger] qa.entries@[i]).0@ == k;
                            lemma_assoc_value(qa.entries@, i);
                        }
                    }
                    true
                },
            }
        },
    }
}

/// A key is in the association map exactly when some entry carries it.
proof fn lemma_assoc_contains(s: Seq<(String, String)>, k: Seq<char>)
    ensures
        assoc_view(s).contains_key(k) <==> exists|i: int|
            0 <= i < s.len() && (#[trigger] s[i]).0@ == k,
    decreases s.len(),
{
    if s.len() > 0 {
        lemma_assoc_contains(s.drop_first(), k);
        if s[0].0@ == k {
            assert(s[0].0@ == k);
        } else {
            if assoc_view(s).contains_key(k) {
                let i = choose|i: int| 0 <= i < s.drop_first().len() && (#[trigger] s.drop_first()[i]).0@ == k;
                assert(s[i + 1].0@ == k);
            }
            if exists|i: int| 0 <= i < s.len() && (#[trigger] s[i]).0@ == k {
                let i = choose|i: int| 0 <= i < s.len() && (#[trigger] s[i]).0@ == k;
                assert(s.drop_first()[i - 1].0@ == k);
            }
        }
    }
}

/// The first entry carrying a key decides that key's value.
proof fn lemma_assoc_value(s: Seq<(String, String)>, i: int)
    requires
        0 <= i < s.len(),
        forall|j: int| 0 <= j < i ==> (#[trigger] s[j]).0@ != s[i].0@,
    ensures
        assoc_view(s).contains_key(s[i].0@),
        assoc_view(s)[s[i].0@] == s[i].1@,
    decreases s.len(),
{
    if i > 0 {
        assert(s.drop_first()[i - 1] == s[i]);
        assert forall|j: int| 0 <= j < i - 1 implies (#[trigger] s.drop_first()[j]).0@ != s.drop_first()[i - 1].0@ by {
            assert(s.drop_first()[j] == s[j + 1]);
        }
        lemma_assoc_value(s.drop_first(), i - 1);
    }
}

/// Replacing the entry that carries `e.0` updates the map at that key.
proof fn lemma_assoc_update(s: Seq<(String, String)>, i: int, e: (String, String))
    requires
        0 <= i < s.len(),
        s[i].0@ == e.0@,
        forall|p: int, q: int| 0 <= p < q < s.len() ==> (#[trigger] s[p]).0@ != (#[trigger] s[q]).0@,
    ensures
        assoc_view(s.update(i, e)) == assoc_view(s).insert(e.0@, e.1@),
    decreases s.len(),
{
    let s2 = s.update(i, e);
    if i == 0 {
        assert(s2.drop_first() =~= s.drop_first());
        assert(assoc_view(s2) == assoc_view(s.drop_first()).insert(e.0@, e.1@));
        assert(assoc_view(s.drop_first()).insert(e.0@, e.1@) =~= assoc_view(s).insert(e.0@, e.1@));
    } else {
        assert(s2.drop_first() =~= s.drop_first().update(i - 1, e));
        assert forall|p: int, q: int| 0 <= p < q < s.drop_first().len() implies (
        #[trigger] s.drop_first()[p]).0@ != (#[trigger] s.drop_first()[q]).0@ by {
            assert(s.drop_first()[p] == s[p + 1]);
            assert(s.drop_first()[q] == s[q + 1]);
        }
        assert(s.drop_first()[i - 1] == s[i]);
        lemma_assoc_update(s.drop_first(), i - 1, e);
        assert(s2[0] == s[0]);
        assert(s[0].0@ != e.0@);
        assert(assoc_view(s.drop_first()).insert(e.0@, e.1@).insert(s[0].0@, s[0].1@)
            =~= assoc_view(s.drop_first()).insert(s[0].0@, s[0].1@).insert(e.0@, e.1@));
    }
}

/// Appending an entry with a fresh key inserts that key into the map.
proof fn lemma_assoc_push(s: Seq<(String, String)>, e: (String, String))
    requires
        forall|j: int| 0 <= j < s.len() ==> (#[trigger] s[j]).0@ != e.0@,
    ensures
        assoc_view(s.push(e)) == assoc_view(s).insert(e.0@, e.1@),
    decreases s.len(),
{
    let s2 = s.push(e);
    if s.len() == 0 {
        assert(s2.drop_first() =~= s);
        assert(s2[0] == e);
        assert(assoc_view(s2) == assoc_view(s).insert(e.0@, e.1@));
    } else {
        assert(s2.drop_first() =~= s.drop_first().push(e));
        assert forall|j: int| 0 <= j < s.drop_first().len() implies (#[trigger] s.drop_first()[j]).0@
            != e.0@ by {
            assert(s.drop_first()[j] == s[j + 1]);
        }
        lemma_assoc_push(s.drop_first(), e);
        assert(s2[0] == s[0]);
        assert(s[0].0@ != e.0@);
        assert(assoc_view(s.drop_first()).insert(e.0@, e.1@).insert(s[0].0@, s[0].1@)
            =~= assoc_view(s.drop_first()).insert(s[0].0@, s[0].1@).insert(e.0@, e.1@));
    }
}

} // verus!
