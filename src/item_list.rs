//! A list of items: a set of strings kept as a strictly ordered vector.

use vstd::prelude::*;
use crate::order::{item_less, item_lt, lemma_item_lt_irreflexive, lemma_item_lt_total, lemma_item_lt_transitive};
use crate::file_format::{decode_lines, file_bytes, loaded_items};
use rand::Rng;

verus! {

/// Every item comes strictly before every later one: ordered, no duplicates.
pub open spec fn sorted(s: Seq<Seq<char>>) -> bool {
    forall|i: int, j: int| 0 <= i < j < s.len() ==> item_lt(#[trigger] s[i], #[trigger] s[j])
}

/// Relies on rand's `Rng::gen_range` over the thread-local generator: on a
/// non-empty range it returns a value inside it (it panics on an empty one).
#[verifier::external_body]
fn random_index(n: usize) -> (r: usize)
    requires
        n > 0,
    ensures
        r < n,
{
    rand::thread_rng().gen_range(0..n)
}

proof fn lemma_sorted_no_duplicates(s: Seq<Seq<char>>)
    requires
        sorted(s),
    ensures
        s.no_duplicates(),
        s.to_set().len() == s.len(),
{
    assert forall|i: int, j: int| 0 <= i < s.len() && 0 <= j < s.len() && i != j implies s[i]
        != s[j] by {
        if i < j {
            lemma_item_lt_irreflexive(s[i]);
        } else {
            lemma_item_lt_irreflexive(s[j]);
        }
    }
    s.unique_seq_to_set();
}

/// Where `x` stands, or would stand, in a sorted sequence.
proof fn lemma_lower_bound(s: Seq<Seq<char>>, p: int, x: Seq<char>)
    requires
        sorted(s),
        0 <= p <= s.len(),
        forall|k: int| 0 <= k < p ==> item_lt(#[trigger] s[k], x),
        p < s.len() ==> !item_lt(s[p], x),
    ensures
        s.contains(x) <==> (p < s.len() && s[p] == x),
        !(p < s.len() && s[p] == x) ==> sorted(s.insert(p, x)),
{
    if !(p < s.len() && s[p] == x) {
        if p < s.len() {
            lemma_item_lt_total(s[p], x);
        }
        assert forall|k: int| 0 <= k < s.len() implies s[k] != x by {
            if k < p {
                lemma_item_lt_irreflexive(x);
            } else if k > p {
                lemma_item_lt_transitive(x, s[p], s[k]);
                lemma_item_lt_irreflexive(x);
            }
        }
        let t = s.insert(p, x);
        assert forall|i: int, j: int| 0 <= i < j < t.len() implies item_lt(
            #[trigger] t[i],
            #[trigger] t[j],
        ) by {
            if j == p {
            } else if i == p {
                if j > p + 1 {
                    lemma_item_lt_transitive(x, s[p], s[j - 1]);
                }
            }
        }
    }
}

/// Taking out one position of a sorted sequence takes its item out of the set.
proof fn lemma_sorted_remove(s: Seq<Seq<char>>, p: int)
    requires
        sorted(s),
        0 <= p < s.len(),
    ensures
        sorted(s.remove(p)),
        s.remove(p).to_set() == s.to_set().remove(s[p]),
        s.remove(p).len() == s.len() - 1,
{
    lemma_sorted_no_duplicates(s);
    let t = s.remove(p);
    assert forall|i: int, j: int| 0 <= i < j < t.len() implies item_lt(
        #[trigger] t[i],
        #[trigger] t[j],
    ) by {
        let a = if i < p { i } else { i + 1 };
        let b = if j < p { j } else { j + 1 };
        assert(t[i] == s[a] && t[j] == s[b]);
    }
    assert forall|x: Seq<char>| #[trigger] t.to_set().contains(x) <==> s.to_set().remove(
        s[p],
    ).contains(x) by {
        if t.to_set().contains(x) {
            let k = choose|k: int| 0 <= k < t.len() && t[k] == x;
            if k < p {
                assert(s[k] == x);
            } else {
                assert(s[k + 1] == x);
            }
        }
        if s.to_set().remove(s[p]).contains(x) {
            let k = choose|k: int| 0 <= k < s.len() && s[k] == x;
            if k < p {
                assert(t[k] == x);
            } else {
                assert(t[k - 1] == x);
            }
        }
    }
    assert(t.to_set() =~= s.to_set().remove(s[p]));
}

/// A list of distinct items, kept in their order (see `item_lt`).
pub struct ItemList {
    items: Vec<String>,
}

impl View for ItemList {
    type V = Seq<Seq<char>>;

    /// The items, in order.
    closed spec fn view(&self) -> Seq<Seq<char>> {
        self.items@.map_values(|s: String| s@)
    }
}

impl ItemList {
    /// The list keeps its items in strict order.
    pub closed spec fn wf(&self) -> bool {
        sorted(self@)
    }

    /// The set of items held.
    pub open spec fn contents(&self) -> Set<Seq<char>> {
        self@.to_set()
    }

    /// An empty list.
    pub fn new() -> (r: ItemList)
        ensures
            r.wf(),
            r@ == Seq::<Seq<char>>::empty(),
    {
        let r = ItemList { items: Vec::new() };
        assert(r@ =~= Seq::<Seq<char>>::empty());
        r
    }

    /// The number of items.
    pub fn len(&self) -> (r: usize)
        requires
            self.wf(),
        ensures
            r == self@.len(),
            r == self.contents().len(),
    {
        proof {
            lemma_sorted_no_duplicates(self@);
        }
        self.items.len()
    }

    /// Whether the list holds no item.
    pub fn is_empty(&self) -> (r: bool)
        ensures
            r == (self@.len() == 0),
            r == (self.contents() == Set::<Seq<char>>::empty()),
    {
        if self.items.len() == 0 {
            assert(self.contents() =~= Set::<Seq<char>>::empty());
            true
        } else {
            assert(self.contents().contains(self@[0]));
            false
        }
    }

    /// The first position whose item does not come before `item`.
    fn position(&self, item: &str) -> (r: usize)
        ensures
            r <= self@.len(),
            forall|k: int| 0 <= k < r ==> item_lt(#[trigger] self@[k], item@),
            r < self@.len() ==> !item_lt(self@[r as int], item@),
    {
        let mut i: usize = 0;
        while i < self.items.len()
            invariant
                i <= self@.len(),
                forall|k: int| 0 <= k < i ==> item_lt(#[trigger] self@[k], item@),
            decreases self@.len() - i,
        {
            if !item_less(self.items[i].as_str(), item) {
                return i;
            }
            i = i + 1;
        }
        i
    }

    /// Whether `item` is in the list.
    pub fn contains(&self, item: &str) -> (r: bool)
        requires
            self.wf(),
        ensures
            r == self.contents().contains(item@),
    {
        let p = self.position(item);
        proof {
            lemma_lower_bound(self@, p as int, item@);
        }
        if p < self.items.len() && !item_less(item, self.items[p].as_str()) {
            proof {
                if self@[p as int] != item@ {
                    lemma_item_lt_total(self@[p as int], item@);
                }
            }
            true
        } else {
            false
        }
    }

    /// Inserts `item`; returns whether it was not there before.
    pub fn add(&mut self, item: String) -> (r: bool)
        requires
            old(self).wf(),
        ensures
            final(self).wf(),
            r == !old(self).contents().contains(item@),
            final(self).contents() == old(self).contents().insert(item@),
    {
        let p = self.position(item.as_str());
        proof {
            lemma_lower_bound(self@, p as int, item@);
        }
        if p < self.items.len() && !item_less(item.as_str(), self.items[p].as_str()) {
            proof {
                if self@[p as int] != item@ {
                    lemma_item_lt_total(self@[p as int], item@);
                }
                assert(self.contents().insert(item@) =~= self.contents());
            }
            false
        } else {
            let ghost s = self@;
            self.items.insert(p, item);
            assert(self@ =~= s.insert(p as int, item@));
            proof {
                assert(s.insert(p as int, item@).to_set() =~= s.to_set().insert(item@)) by {
                    assert forall|x: Seq<char>| #[trigger]
                        s.insert(p as int, item@).to_set().contains(x) implies s.to_set().insert(
                        item@,
                    ).contains(x) by {
                        let t = s.insert(p as int, item@);
                        let k = choose|k: int| 0 <= k < t.len() && t[k] == x;
                        if k < p {
                            assert(s[k] == x);
                        } else if k > p {
                            assert(s[k - 1] == x);
                        }
                    }
                    assert forall|x: Seq<char>| #[trigger]
                        s.to_set().insert(item@).contains(x) implies s.insert(
                        p as int,
                        item@,
                    ).to_set().contains(x) by {
                        let t = s.insert(p as int, item@);
                        if x == item@ {
                            assert(t[p as int] == x);
                        } else {
                            let k = choose|k: int| 0 <= k < s.len() && s[k] == x;
                            if k < p {
                                assert(t[k] == x);
                            } else {
                                assert(t[k + 1] == x);
                            }
                        }
                    }
                }
            }
            true
        }
    }
    /// Removes `item`; returns whether it was there.
    pub fn remove(&mut self, item: &String) -> (r: bool)
        requires
            old(self).wf(),
        ensures
            final(self).wf(),
            r == old(self).contents().contains(item@),
            final(self).contents() == old(self).contents().remove(item@),
            !final(self).contents().contains(item@),
    {
        let p = self.position(item.as_str());
        proof {
            lemma_lower_bound(self@, p as int, item@);
        }
        if p < self.items.len() && !item_less(item.as_str(), self.items[p].as_str()) {
            proof {
                if self@[p as int] != item@ {
                    lemma_item_lt_total(self@[p as int], item@);
                }
            }
            let _ = self.take_at(p);
            true
        } else {
            proof {
                assert(self.contents().remove(item@) =~= self.contents());
            }
            false
        }
    }

    /// Takes out the item at `index`.
    pub fn take_at(&mut self, index: usize) -> (r: String)
        requires
            old(self).wf(),
            index < old(self)@.len(),
        ensures
            final(self).wf(),
            r@ == old(self)@[index as int],
            final(self)@ == old(self)@.remove(index as int),
            final(self).contents() == old(self).contents().remove(r@),
            final(self).contents().len() == old(self).contents().len() - 1,
    {
        let ghost s = self@;
        let r = self.items.remove(index);
        assert(self@ =~= s.remove(index as int));
        proof {
            lemma_sorted_remove(s, index as int);
            lemma_sorted_no_duplicates(s);
            lemma_sorted_no_duplicates(self@);
        }
        r
    }

    /// Draws one item at random, takes it out of the list and returns it;
    /// `None`, with the list unchanged, when the list is empty.
    pub fn take_random(&mut self) -> (r: Option<String>)
        requires
            old(self).wf(),
        ensures
            final(self).wf(),
            r is None <==> old(self)@.len() == 0,
            r is None <==> old(self).contents() == Set::<Seq<char>>::empty(),
            r is None ==> final(self)@ == old(self)@,
            r matches Some(x) ==> {
                &&& old(self).contents().contains(x@)
                &&& final(self).contents() == old(self).contents().remove(x@)
                &&& final(self)@.len() == old(self)@.len() - 1
                &&& final(self).contents().len() == old(self).contents().len() - 1
            },
    {
        let n = self.items.len();
        if n == 0 {
            assert(self.contents() =~= Set::<Seq<char>>::empty());
            None
        } else {
            let i = random_index(n);
            let ghost s = self@;
            let x = self.take_at(i);
            assert(s.to_set().contains(s[i as int]));
            assert(s.to_set() != Set::<Seq<char>>::empty());
            Some(x)
        }
    }

    /// The items, in order.
    pub fn items(&self) -> (r: Vec<String>)
        ensures
            r@.map_values(|s: String| s@) == self@,
    {
        let r = self.items.clone();
        assert(r@.map_values(|s: String| s@) =~= self@);
        r
    }

    /// The rows of a listing: each item in order, numbered from 1.
    pub fn rows(&self) -> (r: Vec<(usize, String)>)
        ensures
            r@.len() == self@.len(),
            forall|i: int| 0 <= i < r@.len() ==> (#[trigger] r@[i]).0 == i + 1 && r@[i].1@
                == self@[i],
    {
        let mut r: Vec<(usize, String)> = Vec::new();
        let mut i: usize = 0;
        while i < self.items.len()
            invariant
                i <= self@.len(),
                r@.len() == i,
                forall|k: int| 0 <= k < i ==> (#[trigger] r@[k]).0 == k + 1 && r@[k].1@
                    == self@[k],
            decreases self@.len() - i,
        {
            r.push((i + 1, self.items[i].clone()));
            i = i + 1;
        }
        r
    }

    /// A list holding each of `lines` once.
    pub fn from_items(lines: Vec<String>) -> (r: ItemList)
        ensures
            r.wf(),
            r.contents() == lines@.map_values(|s: String| s@).to_set(),
    {
        let mut r = ItemList::new();
        let mut i: usize = 0;
        while i < lines.len()
            invariant
                i <= lines@.len(),
                r.wf(),
                r.contents() == lines@.subrange(0, i as int).map_values(|s: String| s@).to_set(),
            decreases lines@.len() - i,
        {
            let ghost before = r.contents();
            r.add(lines[i].clone());
            proof {
                let m = lines@.subrange(0, i + 1).map_values(|s: String| s@);
                assert(m =~= lines@.subrange(0, i as int).map_values(|s: String| s@).push(
                    lines@[i as int]@,
                ));
                lines@.subrange(0, i as int).map_values(|s: String| s@).lemma_push_to_set_commute(lines@[i as int]@);
            }
            i = i + 1;
        }
        assert(lines@.subrange(0, lines@.len() as int) =~= lines@);
        r
    }
    /// The list that a file's bytes hold.
    pub fn load(content: &[u8]) -> (r: ItemList)
        ensures
            r.wf(),
            r.contents() == loaded_items(content@).to_set(),
    {
        let lines = decode_lines(content);
        ItemList::from_items(lines)
    }

    /// The bytes of the file that holds the list: each item, in order, on a
    /// line of its own.
    pub fn to_bytes(&self) -> (r: Vec<u8>)
        ensures
            r@ == file_bytes(self@),
    {
        let mut r: Vec<u8> = Vec::new();
        let mut i: usize = 0;
        assert(self@.subrange(0, 0) =~= Seq::<Seq<char>>::empty());
        while i < self.items.len()
            invariant
                i <= self@.len(),
                r@ == file_bytes(self@.subrange(0, i as int)),
            decreases self@.len() - i,
        {
            let bytes = self.items[i].as_str().as_bytes();
            let ghost base = r@;
            let mut j: usize = 0;
            while j < bytes.len()
                invariant
                    j <= bytes@.len(),
                    r@ == base + bytes@.subrange(0, j as int),
                decreases bytes@.len() - j,
            {
                r.push(bytes[j]);
                assert(r@ =~= base + bytes@.subrange(0, j + 1));
                j = j + 1;
            }
            r.push(10u8);
            assert(self@.subrange(0, i + 1).drop_last() =~= self@.subrange(0, i as int));
            assert(bytes@.subrange(0, bytes@.len() as int) =~= bytes@);
            assert(r@ =~= file_bytes(self@.subrange(0, i + 1)));
            i = i + 1;
        }
        assert(self@.subrange(0, self@.len() as int) =~= self@);
        r
    }

    /// How many times `x` stands in the list.
    pub open spec fn occurrences(&self, x: Seq<char>) -> nat {
        self@.to_multiset().count(x)
    }
}

/// Adding an item that is already there changes nothing: after adding the same
/// item twice it stands in the list exactly once.
pub proof fn lemma_add_twice(before: ItemList, once: ItemList, twice: ItemList, x: Seq<char>)
    requires
        before.wf(),
        once.wf(),
        twice.wf(),
        once.contents() == before.contents().insert(x),
        twice.contents() == once.contents().insert(x),
    ensures
        twice.contents() == once.contents(),
        twice.occurrences(x) == 1,
{
    assert(once.contents().insert(x) =~= once.contents());
    lemma_sorted_no_duplicates(twice@);
    twice@.lemma_multiset_has_no_duplicates();
    broadcast use vstd::seq_lib::group_to_multiset_ensures;
    assert(twice@.contains(x));
}

} // verus!
