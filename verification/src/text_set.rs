//! Sorted texts: a set of strings, and a sort.

use crate::text;
use crate::text::text_less;
use vstd::prelude::*;

verus! {

/// Every text comes before all later ones: the list is sorted and has none twice.
pub open spec fn increasing(list: Seq<Seq<char>>) -> bool {
    forall|i: int, j: int|
        0 <= i < j < list.len() ==> text::text_before(#[trigger] list[i], #[trigger] list[j])
}

/// No text comes before an earlier one.
pub open spec fn sorted(list: Seq<Seq<char>>) -> bool {
    forall|i: int, j: int|
        0 <= i < j < list.len() ==> !text::text_before(#[trigger] list[j], #[trigger] list[i])
}

/// A set of strings.
pub struct TextSet {
    items: Vec<String>,
}

impl View for TextSet {
    type V = Set<Seq<char>>;

    closed spec fn view(&self) -> Set<Seq<char>> {
        self.list().to_set()
    }
}

/// Inserting into a list adds one text to what it holds.
proof fn lemma_insert_to_set(list: Seq<Seq<char>>, at: int, s: Seq<char>)
    requires
        0 <= at <= list.len(),
    ensures
        list.insert(at, s).to_set() == list.to_set().insert(s),
{
    let longer = list.insert(at, s);
    assert forall|x: Seq<char>| longer.to_set().contains(x) <==> list.to_set().insert(s).contains(
        x,
    ) by {
        if longer.contains(x) {
            let i = choose|i: int| 0 <= i < longer.len() && longer[i] == x;
            if i < at {
                assert(list[i] == x);
            } else if i > at {
                assert(list[i - 1] == x);
            }
        }
        if list.contains(x) {
            let i = choose|i: int| 0 <= i < list.len() && list[i] == x;
            if i < at {
                assert(longer[i] == x);
            } else {
                assert(longer[i + 1] == x);
            }
        }
        if x == s {
            assert(longer[at] == x);
        }
    }
    assert(longer.to_set() =~= list.to_set().insert(s));
}

/// Where a text belongs in an increasing list, everything before it is smaller and
/// everything after it is not.
proof fn lemma_insert_increasing(list: Seq<Seq<char>>, at: int, s: Seq<char>)
    requires
        increasing(list),
        0 <= at <= list.len(),
        forall|k: int| 0 <= k < at ==> text::text_before(#[trigger] list[k], s),
        forall|k: int| at <= k < list.len() ==> !text::text_before(#[trigger] list[k], s),
        at < list.len() ==> list[at] != s,
    ensures
        increasing(list.insert(at, s)),
{
    let longer = list.insert(at, s);
    assert forall|k: int| at <= k < list.len() implies text::text_before(
        s,
        #[trigger] list[k],
    ) by {
        text::text_order_total(s, list[k]);
        if k > at && list[k] == s {
            assert(text::text_before(list[at], list[k]));
        }
    }
    assert forall|i: int, j: int| 0 <= i < j < longer.len() implies text::text_before(
        #[trigger] longer[i],
        #[trigger] longer[j],
    ) by {
        if i < at && j > at {
            assert(text::text_before(list[i], list[j - 1]));
        } else if i > at {
            assert(text::text_before(list[i - 1], list[j - 1]));
        } else if i == at {
            assert(text::text_before(s, list[j - 1]));
        }
    }
}

impl TextSet {
    /// The texts of the set, sorted.
    pub closed spec fn list(&self) -> Seq<Seq<char>> {
        text::texts(self.items@)
    }

    /// The set is kept sorted and has no text twice.
    pub closed spec fn wf(&self) -> bool {
        increasing(self.list())
    }

    /// The texts of the set in order are increasing, and are the set.
    pub proof fn list_is_the_set(&self)
        requires
            self.wf(),
        ensures
            increasing(self.list()),
            self.list().to_set() == self@,
            self.list().len() == self@.len(),
            self@.finite(),
    {
        let list = self.list();
        assert forall|i: int, j: int| 0 <= i < j < list.len() implies list[i] != list[j] by {
            assert(text::text_before(list[i], list[j]));
            text::text_order_irreflexive(list[i]);
        }
        list.unique_seq_to_set();
    }

    /// The empty set.
    pub fn new() -> (r: TextSet)
        ensures
            r.wf(),
            r@ == Set::<Seq<char>>::empty(),
            r.list().len() == 0,
    {
        let r = TextSet { items: Vec::new() };
        assert(r.list().to_set() =~= Set::empty());
        r
    }

    /// How many texts there are.
    pub fn len(&self) -> (r: usize)
        requires
            self.wf(),
        ensures
            r == self@.len(),
            r == self.list().len(),
    {
        proof {
            self.list_is_the_set();
        }
        self.items.len()
    }

    /// The text at a place of the sorted list.
    pub fn get(&self, i: usize) -> (r: &String)
        requires
            i < self.list().len(),
        ensures
            r@ == self.list()[i as int],
    {
        &self.items[i]
    }

    /// Where `s` is or belongs.
    fn position(&self, s: &str) -> (r: usize)
        requires
            self.wf(),
        ensures
            r <= self.list().len(),
            forall|k: int| 0 <= k < r ==> text::text_before(#[trigger] self.list()[k], s@),
            forall|k: int|
                r <= k < self.list().len() ==> !text::text_before(#[trigger] self.list()[k], s@),
    {
        let mut low: usize = 0;
        let mut high: usize = self.items.len();
        while low < high
            invariant
                low <= high <= self.items.len(),
                self.wf(),
                self.items.len() == self.list().len(),
                forall|k: int| 0 <= k < low ==> text::text_before(#[trigger] self.list()[k], s@),
                forall|k: int|
                    high <= k < self.list().len() ==> !text::text_before(
                        #[trigger] self.list()[k],
                        s@,
                    ),
            decreases high - low,
        {
            let mid: usize = low + (high - low) / 2;
            let ghost at = self.list()[mid as int];
            if text_less(self.items[mid].as_str(), s) {
                proof {
                    assert forall|k: int| 0 <= k < mid + 1 implies text::text_before(
                        #[trigger] self.list()[k],
                        s@,
                    ) by {
                        if k < mid {
                            assert(text::text_before(self.list()[k], at));
                            text::text_order_transitive(self.list()[k], at, s@);
                        }
                    }
                }
                low = mid + 1;
            } else {
                proof {
                    assert forall|k: int| mid <= k < self.list().len() implies !text::text_before(
                        #[trigger] self.list()[k],
                        s@,
                    ) by {
                        if k > mid && text::text_before(self.list()[k], s@) {
                            assert(text::text_before(at, self.list()[k]));
                            text::text_order_transitive(at, self.list()[k], s@);
                        }
                    }
                }
                high = mid;
            }
        }
        low
    }

    /// Whether `s` stands at `at`, its position.
    fn stands_at(&self, at: usize, s: &str) -> (r: bool)
        requires
            self.wf(),
            at <= self.list().len(),
            forall|k: int| 0 <= k < at ==> text::text_before(#[trigger] self.list()[k], s@),
            forall|k: int|
                at <= k < self.list().len() ==> !text::text_before(#[trigger] self.list()[k], s@),
        ensures
            r == self@.contains(s@),
            r == (at < self.list().len() && self.list()[at as int] == s@),
    {
        let here: bool = at < self.items.len() && text::text_eq(self.items[at].as_str(), s);
        proof {
            let list = self.list();
            if here {
                assert(list[at as int] == s@);
            } else if list.contains(s@) {
                let i = choose|i: int| 0 <= i < list.len() && list[i] == s@;
                text::text_order_irreflexive(s@);
                if i < at {
                    assert(text::text_before(list[i], s@));
                } else if i > at {
                    assert(text::text_before(list[at as int], list[i]));
                }
            }
        }
        here
    }

    /// Whether `s` is in the set.
    pub fn contains(&self, s: &str) -> (r: bool)
        requires
            self.wf(),
        ensures
            r == self@.contains(s@),
    {
        let at: usize = self.position(s);
        self.stands_at(at, s)
    }

    /// Puts `s` into the set.
    pub fn insert(&mut self, s: String)
        requires
            old(self).wf(),
        ensures
            final(self).wf(),
            final(self)@ == old(self)@.insert(s@),
    {
        let at: usize = self.position(s.as_str());
        if !self.stands_at(at, s.as_str()) {
            let ghost before = self.list();
            let ghost added = s@;
            self.items.insert(at, s);
            proof {
                assert(self.list() =~= before.insert(at as int, added));
                lemma_insert_increasing(before, at as int, added);
                lemma_insert_to_set(before, at as int, added);
            }
        } else {
            assert(self@.insert(s@) =~= self@);
        }
    }

    /// The set of the texts of a list.
    pub fn from_list(list: &Vec<String>) -> (r: TextSet)
        ensures
            r.wf(),
            r@ == text::texts(list@).to_set(),
    {
        let mut set: TextSet = TextSet::new();
        let ghost all = text::texts(list@);
        let mut i: usize = 0;
        assert(all.take(0).to_set() =~= Set::empty());
        while i < list.len()
            invariant
                i <= list.len(),
                all == text::texts(list@),
                set.wf(),
                set@ == all.take(i as int).to_set(),
            decreases list.len() - i,
        {
            set.insert(list[i].clone());
            proof {
                let front = all.take(i as int);
                assert(all.take(i + 1) =~= front.insert(i as int, all[i as int]));
                lemma_insert_to_set(front, i as int, all[i as int]);
            }
            i = i + 1;
        }
        assert(all.take(list.len() as int) =~= all);
        set
    }

    /// The texts of the set, sorted.
    pub fn to_vec(&self) -> (r: Vec<String>)
        requires
            self.wf(),
        ensures
            text::texts(r@) == self.list(),
            increasing(text::texts(r@)),
            text::texts(r@).to_set() == self@,
    {
        let mut out: Vec<String> = Vec::new();
        let mut i: usize = 0;
        while i < self.items.len()
            invariant
                i <= self.items.len(),
                out.len() == i,
                forall|k: int| 0 <= k < i ==> #[trigger] out@[k] == self.items@[k],
            decreases self.items.len() - i,
        {
            out.push(self.items[i].clone());
            i = i + 1;
        }
        proof {
            assert(text::texts(out@) =~= self.list());
            self.list_is_the_set();
        }
        out
    }
}

/// Inserting into a list adds one text to its multiset.
proof fn lemma_insert_to_multiset(list: Seq<Seq<char>>, at: int, s: Seq<char>)
    requires
        0 <= at <= list.len(),
    ensures
        list.insert(at, s).to_multiset() == list.to_multiset().insert(s),
{
    let longer = list.insert(at, s);
    longer.to_multiset_ensures();
    assert(longer.remove(at) =~= list);
    assert(longer[at] == s);
    assert(longer.contains(s));
    assert(longer.to_multiset().remove(s).insert(s) =~= longer.to_multiset());
}

/// Sorts texts; those that occur more than once stay.
pub fn sort_texts(list: &Vec<String>) -> (r: Vec<String>)
    ensures
        sorted(text::texts(r@)),
        text::texts(r@).to_multiset() == text::texts(list@).to_multiset(),
{
    let mut out: Vec<String> = Vec::new();
    let ghost all = text::texts(list@);
    let mut i: usize = 0;
    assert(all.take(0) =~= text::texts(out@));
    while i < list.len()
        invariant
            i <= list.len(),
            all == text::texts(list@),
            sorted(text::texts(out@)),
            text::texts(out@).to_multiset() == all.take(i as int).to_multiset(),
        decreases list.len() - i,
    {
        let ghost before = text::texts(out@);
        let ghost s = all[i as int];
        let mut at: usize = out.len();
        while at > 0 && text_less(list[i].as_str(), out[at - 1].as_str())
            invariant
                i < list.len(),
                at <= out.len(),
                before == text::texts(out@),
                s == list@[i as int]@,
                forall|k: int| at <= k < before.len() ==> text::text_before(s, #[trigger] before[k]),
            decreases at,
        {
            at = at - 1;
        }
        assert(at > 0 ==> !text::text_before(s, before[at - 1]));
        out.insert(at, list[i].clone());
        proof {
            let after = text::texts(out@);
            assert(after =~= before.insert(at as int, s));
            lemma_insert_sorted(before, at as int, s);
            lemma_insert_to_multiset(before, at as int, s);
            let front = all.take(i as int);
            assert(all.take(i + 1) =~= front.insert(i as int, s));
            lemma_insert_to_multiset(front, i as int, s);
        }
        i = i + 1;
    }
    assert(all.take(list.len() as int) =~= all);
    out
}

/// A text put behind those that it does not come before keeps a list sorted.
pub proof fn lemma_insert_sorted(list: Seq<Seq<char>>, at: int, s: Seq<char>)
    requires
        sorted(list),
        0 <= at <= list.len(),
        at > 0 ==> !text::text_before(s, list[at - 1]),
        forall|k: int| at <= k < list.len() ==> text::text_before(s, #[trigger] list[k]),
    ensures
        sorted(list.insert(at, s)),
{
    let longer = list.insert(at, s);
    assert forall|i: int, j: int| 0 <= i < j < longer.len() implies !text::text_before(
        #[trigger] longer[j],
        #[trigger] longer[i],
    ) by {
        if j < at {
            assert(longer[i] == list[i] && longer[j] == list[j]);
        } else if j == at {
            assert(longer[i] == list[i]);
            if text::text_before(s, list[i]) && i < at - 1 {
                assert(!text::text_before(list[at - 1], list[i]));
                text::text_order_total(list[at - 1], list[i]);
                if list[at - 1] != list[i] {
                    text::text_order_transitive(s, list[i], list[at - 1]);
                }
            }
        } else if i < at {
            assert(longer[i] == list[i] && longer[j] == list[j - 1]);
        } else if i == at {
            assert(text::text_before(s, list[j - 1]));
            if text::text_before(list[j - 1], s) {
                text::text_order_transitive(s, list[j - 1], s);
                text::text_order_irreflexive(s);
            }
        } else {
            assert(longer[i] == list[i - 1] && longer[j] == list[j - 1]);
        }
    }
}

} // verus!
