//! A set of keys that have been met. A key is a list of strings.

use crate::embed;
use crate::text;
use std::collections::HashMap;
use vstd::prelude::*;

verus! {

broadcast use {vstd::std_specs::hash::group_hash_axioms, vstd::string::group_string_axioms};

/// The contents of a list of keys.
pub open spec fn keys(v: Seq<Vec<String>>) -> Seq<Seq<Seq<char>>> {
    Seq::new(v.len(), |i: int| text::strs(v[i]@))
}

/// The bucket in which a key is kept.
pub open spec fn bucket(key: Seq<Seq<char>>) -> u64 {
    embed::fnv(vstd::utf8::encode_utf8(text::joined(key, "|"@)), 0)
}

/// The keys met so far, in buckets by hash.
pub struct SeenSet {
    buckets: HashMap<u64, Vec<Vec<String>>>,
}

impl View for SeenSet {
    type V = Set<Seq<Seq<char>>>;

    closed spec fn view(&self) -> Set<Seq<Seq<char>>> {
        Set::new(
            |key: Seq<Seq<char>>|
                self.buckets@.contains_key(bucket(key)) && keys(
                    self.buckets@[bucket(key)]@,
                ).contains(key),
        )
    }
}

/// Whether a list has a key.
fn has_key(v: &Vec<Vec<String>>, key: &Vec<String>) -> (r: bool)
    ensures
        r == keys(v@).contains(text::strs(key@)),
{
    for i in 0..v.len()
        invariant
            forall|k: int| 0 <= k < i ==> keys(v@)[k] != text::strs(key@),
    {
        if same_key(&v[i], key) {
            assert(keys(v@)[i as int] == text::strs(key@));
            return true;
        }
        assert(keys(v@)[i as int] == text::strs(v@[i as int]@));
    }
    false
}

/// Whether two keys hold the same strings.
fn same_key(a: &Vec<String>, b: &Vec<String>) -> (r: bool)
    ensures
        r == (text::strs(a@) == text::strs(b@)),
{
    if a.len() != b.len() {
        assert(text::strs(a@).len() != text::strs(b@).len());
        return false;
    }
    for i in 0..a.len()
        invariant
            a@.len() == b@.len(),
            forall|k: int| 0 <= k < i ==> a@[k]@ == b@[k]@,
    {
        if a[i] != b[i] {
            assert(text::strs(a@)[i as int] != text::strs(b@)[i as int]);
            return false;
        }
    }
    assert(text::strs(a@) =~= text::strs(b@));
    true
}

impl SeenSet {
    /// A set without keys.
    pub fn new() -> (r: Self)
        ensures
            r@ == Set::<Seq<Seq<char>>>::empty(),
    {
        let r = SeenSet { buckets: HashMap::new() };
        assert(r@ =~= Set::<Seq<Seq<char>>>::empty());
        r
    }

    /// Adds a key and tells whether it is new.
    pub fn insert(&mut self, key: Vec<String>) -> (r: bool)
        ensures
            r == !old(self)@.contains(text::strs(key@)),
            final(self)@ == old(self)@.insert(text::strs(key@)),
    {
        let ghost k = text::strs(key@);
        let ghost m = self.buckets@;
        let flat = text::join(&key, "|");
        let h = embed::fnv1a(flat.as_str().as_bytes(), 0);
        assert(h == bucket(k));
        let mut list: Vec<Vec<String>> = match self.buckets.remove(&h) {
            Some(v) => v,
            None => Vec::new(),
        };
        let ghost before = list@;
        proof {
            if m.contains_key(h) {
                assert(list@ == m[h]@);
            } else {
                assert(keys(list@) =~= Seq::<Seq<Seq<char>>>::empty());
            }
        }
        let known = has_key(&list, &key);
        if !known {
            list.push(key);
            proof {
                assert(keys(list@) =~= keys(before).push(k));
            }
        }
        let ghost after = list@;
        self.buckets.insert(h, list);
        proof {
            assert forall|x: Seq<Seq<char>>| #[trigger]
                self@.contains(x) == old(self)@.insert(k).contains(x) by {
                if bucket(x) == h {
                    if !known {
                        assert(keys(after) =~= keys(before).push(k));
                        if keys(before).contains(x) {
                            let i = choose|i: int|
                                0 <= i < keys(before).len() && keys(before)[i] == x;
                            assert(keys(after)[i] == x);
                        }
                        assert(keys(after)[before.len() as int] == k);
                        if keys(after).contains(x) && x != k {
                            let i = choose|i: int|
                                0 <= i < keys(after).len() && keys(after)[i] == x;
                            assert(keys(before)[i] == x);
                        }
                    }
                }
            }
            assert(self@ =~= old(self)@.insert(k));
        }
        !known
    }
}

} // verus!
