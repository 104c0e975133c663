//! An ordered map from variable names to field values, modelled as a
//! mathematical map from character sequences to natural numbers.
use vstd::prelude::*;
use num_bigint::BigUint;

use crate::bigint::{big, big_clone};

verus! {

/// The bindings of an association list, later entries shadowing earlier ones.
pub open spec fn pairs_map(s: Seq<(String, BigUint)>) -> Map<Seq<char>, nat>
    decreases s.len(),
{
    if s.len() == 0 {
        Map::empty()
    } else {
        pairs_map(s.drop_last()).insert(s.last().0@, big(s.last().1))
    }
}

/// The key of each entry, in insertion order.
pub open spec fn pair_keys(s: Seq<(String, BigUint)>) -> Seq<Seq<char>> {
    s.map_values(|p: (String, BigUint)| p.0@)
}

/// A name is in the map's domain exactly when some entry carries it.
proof fn lemma_pairs_map_dom(s: Seq<(String, BigUint)>, k: Seq<char>)
    ensures
        pairs_map(s).dom().contains(k) <==> pair_keys(s).contains(k),
    decreases s.len(),
{
    if s.len() == 0 {
    } else {
        lemma_pairs_map_dom(s.drop_last(), k);
        assert(pair_keys(s.drop_last()) =~= pair_keys(s).drop_last());
        if pair_keys(s).contains(k) {
            let i = choose|i: int| 0 <= i < pair_keys(s).len() && pair_keys(s)[i] == k;
            if i < s.len() - 1 {
                assert(pair_keys(s).drop_last()[i] == k);
            }
        }
        if pair_keys(s).drop_last().contains(k) {
            let i = choose|i: int|
                0 <= i < pair_keys(s).drop_last().len() && pair_keys(s).drop_last()[i] == k;
            assert(pair_keys(s)[i] == k);
        }
        if pair_keys(s).last() == k {
            assert(pair_keys(s)[s.len() - 1] == k);
        }
    }
}

/// With duplicate-free keys, the entry at any index gives the map's binding.
proof fn lemma_pairs_map_at(s: Seq<(String, BigUint)>, i: int)
    requires
        pair_keys(s).no_duplicates(),
        0 <= i < s.len(),
    ensures
        pairs_map(s).dom().contains(s[i].0@),
        pairs_map(s)[s[i].0@] == big(s[i].1),
    decreases s.len(),
{
    if i == s.len() - 1 {
    } else {
        assert(pair_keys(s.drop_last()) =~= pair_keys(s).drop_last());
        assert(pair_keys(s).drop_last().no_duplicates()) by {
            assert(forall|a: int, b: int|
                0 <= a < b < pair_keys(s).len() - 1 ==> pair_keys(s).drop_last()[a] == pair_keys(
                    s,
                )[a] && pair_keys(s).drop_last()[b] == pair_keys(s)[b]);
        }
        lemma_pairs_map_at(s.drop_last(), i);
        assert(s.drop_last()[i] == s[i]);
        assert(pair_keys(s)[i] == s[i].0@);
        assert(pair_keys(s)[s.len() - 1] == s.last().0@);
        assert(s[i].0@ != s.last().0@);
    }
}

/// The views of a list of names.
pub open spec fn seq_names(s: Seq<String>) -> Seq<Seq<char>> {
    s.map_values(|x: String| x@)
}

/// Whether a list of names holds `name`.
pub fn names_contain(v: &Vec<String>, name: &String) -> (r: bool)
    ensures
        r == seq_names(v@).contains(name@),
{
    let n = v.len();
    let mut i: usize = 0;
    while i < n
        invariant
            0 <= i <= n,
            n == v.len(),
            forall|j: int| 0 <= j < i ==> seq_names(v@)[j] != name@,
        decreases n - i,
    {
        if v[i] == *name {
            assert(seq_names(v@).contains(name@)) by {
                assert(seq_names(v@)[i as int] == name@);
            }
            return true;
        }
        i = i + 1;
    }
    assert(!seq_names(v@).contains(name@));
    false
}

/// A copy of a list of names.
pub fn clone_names(v: &Vec<String>) -> (r: Vec<String>)
    ensures
        seq_names(r@) == seq_names(v@),
{
    let n = v.len();
    let mut out: Vec<String> = Vec::new();
    let mut i: usize = 0;
    while i < n
        invariant
            0 <= i <= n,
            n == v.len(),
            out@.len() == i,
            forall|j: int| 0 <= j < i ==> out@[j]@ == v@[j]@,
        decreases n - i,
    {
        out.push(v[i].clone());
        i = i + 1;
    }
    proof {
        assert(seq_names(out@) =~= seq_names(v@));
    }
    out
}

/// Append copies of all names of `src` to `dst`.
pub fn extend_names(dst: &mut Vec<String>, src: &Vec<String>)
    ensures
        seq_names(final(dst)@) == seq_names(old(dst)@) + seq_names(src@),
{
    let ghost entry = seq_names(dst@);
    let n = src.len();
    let mut i: usize = 0;
    while i < n
        invariant
            0 <= i <= n,
            n == src@.len(),
            dst@.len() == entry.len() + i,
            forall|j: int| 0 <= j < entry.len() ==> seq_names(dst@)[j] == entry[j],
            forall|j: int|
                0 <= j < i ==> seq_names(dst@)[entry.len() + j] == seq_names(src@)[j],
        decreases n - i,
    {
        dst.push(src[i].clone());
        i = i + 1;
    }
    proof {
        assert(seq_names(dst@) =~= entry + seq_names(src@));
    }
}

/// An ordered association of variable names to field values.  Names are
/// unique; its mathematical reading is a map from names to natural numbers.
pub struct VarMap {
    pairs: Vec<(String, BigUint)>,
}

impl View for VarMap {
    type V = Map<Seq<char>, nat>;

    closed spec fn view(&self) -> Map<Seq<char>, nat> {
        pairs_map(self.pairs@)
    }
}

impl VarMap {
    /// Every name is bound at most once.
    pub closed spec fn wf(self) -> bool {
        pair_keys(self.pairs@).no_duplicates()
    }

    /// The bound names, in the order their bindings were added.
    pub closed spec fn key_order(self) -> Seq<Seq<char>> {
        pair_keys(self.pairs@)
    }

    /// An empty map.
    pub fn new() -> (r: VarMap)
        ensures
            r@ == Map::<Seq<char>, nat>::empty(),
            r.wf(),
            r.key_order() == Seq::<Seq<char>>::empty(),
    {
        let r = VarMap { pairs: Vec::new() };
        proof {
            assert(pair_keys(r.pairs@) =~= Seq::<Seq<char>>::empty());
        }
        r
    }

    /// How many names are bound.
    pub fn len(&self) -> (r: usize)
        ensures
            r == self.key_order().len(),
    {
        self.pairs.len()
    }

    /// Whether `name` is bound.
    pub fn contains(&self, name: &String) -> (r: bool)
        ensures
            r == self@.dom().contains(name@),
    {
        proof {
            lemma_pairs_map_dom(self.pairs@, name@);
        }
        let n = self.pairs.len();
        let mut i: usize = 0;
        while i < n
            invariant
                0 <= i <= n,
                n == self.pairs.len(),
                forall|j: int| 0 <= j < i ==> pair_keys(self.pairs@)[j] != name@,
            decreases n - i,
        {
            if self.pairs[i].0 == *name {
                assert(pair_keys(self.pairs@).contains(name@)) by {
                    assert(pair_keys(self.pairs@)[i as int] == name@);
                }
                proof {
                    lemma_pairs_map_dom(self.pairs@, name@);
                }
                assert(self@.dom().contains(name@));
                return true;
            }
            i = i + 1;
        }
        assert(!pair_keys(self.pairs@).contains(name@));
        false
    }

    /// The value bound to `name`, if any.
    pub fn get(&self, name: &String) -> (r: Option<&BigUint>)
        requires
            self.wf(),
        ensures
            match r {
                Some(v) => self@.dom().contains(name@) && big(*v) == self@[name@],
                None => !self@.dom().contains(name@),
            },
    {
        proof {
            lemma_pairs_map_dom(self.pairs@, name@);
        }
        let n = self.pairs.len();
        let mut i: usize = 0;
        while i < n
            invariant
                0 <= i <= n,
                n == self.pairs.len(),
                self.wf(),
                forall|j: int| 0 <= j < i ==> pair_keys(self.pairs@)[j] != name@,
            decreases n - i,
        {
            if self.pairs[i].0 == *name {
                proof {
                    lemma_pairs_map_at(self.pairs@, i as int);
                }
                return Some(&self.pairs[i].1);
            }
            assert(pair_keys(self.pairs@)[i as int] != name@);
            i = i + 1;
        }
        assert(!pair_keys(self.pairs@).contains(name@));
        None
    }

    /// Bind a fresh name.
    pub fn insert(&mut self, name: String, v: BigUint)
        requires
            old(self).wf(),
            !old(self)@.dom().contains(name@),
        ensures
            final(self).wf(),
            final(self)@ == old(self)@.insert(name@, big(v)),
            final(self).key_order() == old(self).key_order().push(name@),
    {
        proof {
            lemma_pairs_map_dom(self.pairs@, name@);
        }
        let ghost before = self.pairs@;
        self.pairs.push((name, v));
        proof {
            assert(self.pairs@.drop_last() =~= before);
            assert(pair_keys(self.pairs@) =~= pair_keys(before).push(self.pairs@.last().0@));
            assert(pair_keys(self.pairs@).drop_last() =~= pair_keys(before));
        }
    }

    /// The bound names, in insertion order.
    pub fn names(&self) -> (r: Vec<String>)
        ensures
            seq_names(r@) == self.key_order(),
    {
        let n = self.pairs.len();
        let mut out: Vec<String> = Vec::new();
        let mut i: usize = 0;
        while i < n
            invariant
                0 <= i <= n,
                n == self.pairs.len(),
                out@.len() == i,
                forall|j: int| 0 <= j < i ==> out@[j]@ == self.pairs@[j].0@,
            decreases n - i,
        {
            out.push(self.pairs[i].0.clone());
            i = i + 1;
        }
        proof {
            assert(seq_names(out@) =~= pair_keys(self.pairs@));
        }
        out
    }

    /// A copy with the same bindings.
    pub fn duplicate(&self) -> (r: VarMap)
        ensures
            r@ == self@,
            r.wf() == self.wf(),
            r.key_order() == self.key_order(),
    {
        let n = self.pairs.len();
        let mut out: Vec<(String, BigUint)> = Vec::new();
        let mut i: usize = 0;
        while i < n
            invariant
                0 <= i <= n,
                n == self.pairs.len(),
                out@.len() == i,
                forall|j: int|
                    0 <= j < i ==> out@[j].0@ == self.pairs@[j].0@ && big(out@[j].1) == big(
                        self.pairs@[j].1,
                    ),
            decreases n - i,
        {
            let nm = self.pairs[i].0.clone();
            let vv = big_clone(&self.pairs[i].1);
            out.push((nm, vv));
            i = i + 1;
        }
        let r = VarMap { pairs: out };
        proof {
            assert(pair_keys(r.pairs@) =~= pair_keys(self.pairs@));
            lemma_pairs_map_congruent(r.pairs@, self.pairs@);
        }
        r
    }
}

/// Two entry lists with equal keys and equal values denote the same map.
proof fn lemma_pairs_map_congruent(s1: Seq<(String, BigUint)>, s2: Seq<(String, BigUint)>)
    requires
        s1.len() == s2.len(),
        forall|j: int| 0 <= j < s1.len() ==> s1[j].0@ == s2[j].0@ && big(s1[j].1) == big(s2[j].1),
    ensures
        pairs_map(s1) == pairs_map(s2),
    decreases s1.len(),
{
    if s1.len() == 0 {
        assert(pairs_map(s1) =~= pairs_map(s2));
    } else {
        assert(forall|j: int|
            0 <= j < s1.len() - 1 ==> s1.drop_last()[j].0@ == s2.drop_last()[j].0@ && big(
                s1.drop_last()[j].1,
            ) == big(s2.drop_last()[j].1));
        lemma_pairs_map_congruent(s1.drop_last(), s2.drop_last());
        assert(pairs_map(s1) =~= pairs_map(s2));
    }
}

} // verus!
