//! Collections of texts: a set in the order of insertion, and a map.

use crate::pattern::contains_text;
use crate::text::{lemma_texts_push, owned, same, texts};
use crate::pieces::{lemma_kept_places, rises};
use vstd::prelude::*;
use vstd::string::*;

verus! {

/// A set of texts, which remembers in what order they came.
#[derive(Debug, Clone)]
pub struct TextSet {
    items: Vec<String>,
}

/// The texts with another one, if it is not among them.
pub open spec fn added(v: Seq<Seq<char>>, s: Seq<char>) -> Seq<Seq<char>> {
    if v.contains(s) {
        v
    } else {
        v.push(s)
    }
}

/// The texts of `a` that are not in `b`, in order.
pub open spec fn minus(a: Seq<Seq<char>>, b: Seq<Seq<char>>) -> Seq<Seq<char>> {
    a.filter(|s: Seq<char>| !b.contains(s))
}

impl View for TextSet {
    type V = Seq<Seq<char>>;

    closed spec fn view(&self) -> Seq<Seq<char>> {
        texts(self.items@)
    }
}

impl TextSet {
    /// Whether no text is in the set twice.
    pub open spec fn wf(&self) -> bool {
        self@.no_duplicates()
    }

    /// The empty set.
    pub fn new() -> (r: Self)
        ensures
            r.wf(),
            r@ == Seq::<Seq<char>>::empty(),
    {
        let r: TextSet = TextSet { items: Vec::new() };
        assert(r@ =~= Seq::<Seq<char>>::empty());
        r
    }

    /// Whether a text is in the set.
    pub fn contains(&self, s: &str) -> (r: bool)
        ensures
            r == self@.contains(s@),
    {
        contains_text(&self.items, s)
    }

    /// Puts a text into the set.
    pub fn insert(&mut self, s: &str)
        requires
            old(self).wf(),
        ensures
            final(self).wf(),
            final(self)@ == added(old(self)@, s@),
    {
        if !self.contains(s) {
            let ghost before = self.items@;
            self.items.push(owned(s));
            proof {
                lemma_texts_push(before, self.items@.last());
                assert(self@ == texts(before).push(s@));
            }
        }
    }

    /// How many texts are in the set.
    pub fn len(&self) -> (r: usize)
        ensures
            r == self@.len(),
    {
        self.items.len()
    }

    /// Whether the set is empty.
    pub fn is_empty(&self) -> (r: bool)
        ensures
            r == (self@.len() == 0),
    {
        self.items.len() == 0
    }

    /// The texts in the set, in the order in which they came.
    pub fn to_vec(&self) -> (r: Vec<String>)
        ensures
            texts(r@) == self@,
    {
        let mut out: Vec<String> = Vec::new();
        let mut i: usize = 0;
        while i < self.items.len()
            invariant
                i <= self.items@.len(),
                out@.len() == i,
                forall|j: int| 0 <= j < i ==> (#[trigger] out@[j])@ == self.items@[j]@,
            decreases self.items@.len() - i,
        {
            out.push(self.items[i].clone());
            i += 1;
        }
        assert(texts(out@) =~= self@);
        out
    }

    /// The texts in the set that are not in another one.
    pub fn difference(&self, other: &TextSet) -> (r: Vec<String>)
        ensures
            texts(r@) == minus(self@, other@),
    {
        let ghost all = self@;
        let ghost p = |s: Seq<char>| !other@.contains(s);
        let mut out: Vec<String> = Vec::new();
        let mut i: usize = 0;
        proof {
            reveal(Seq::filter);
            assert(texts(out@) =~= all.take(0).filter(p));
        }
        while i < self.items.len()
            invariant
                all == texts(self.items@),
                p == (|s: Seq<char>| !other@.contains(s)),
                i <= self.items@.len(),
                texts(out@) == all.take(i as int).filter(p),
            decreases self.items@.len() - i,
        {
            proof {
                reveal(Seq::filter);
                assert(all.take(i + 1).drop_last() =~= all.take(i as int));
                assert(all.take(i + 1).last() == self.items@[i as int]@);
            }
            if !other.contains(self.items[i].as_str()) {
                let ghost before = out@;
                out.push(self.items[i].clone());
                proof {
                    lemma_texts_push(before, out@.last());
                }
            }
            i += 1;
        }
        assert(all.take(i as int) =~= all);
        out
    }
}

/// What is left of a set without another one is in the first and not in the second,
/// and nothing is left twice.
pub proof fn lemma_minus(a: Seq<Seq<char>>, b: Seq<Seq<char>>)
    ensures
        forall|s: Seq<char>| #[trigger] minus(a, b).contains(s) <==> a.contains(s) && !b.contains(s),
        a.no_duplicates() ==> minus(a, b).no_duplicates(),
        minus(a, b).len() <= a.len(),
    decreases a.len(),
{
    let p = |s: Seq<char>| !b.contains(s);
    reveal(Seq::filter);
    if a.len() > 0 {
        let before = a.drop_last();
        lemma_minus(before, b);
        assert(minus(before, b) == before.filter(p));
        assert forall|s: Seq<char>| #[trigger] minus(a, b).contains(s) <==> a.contains(s)
            && !b.contains(s) by {
            if a.contains(s) {
                let k = choose|k: int| 0 <= k < a.len() && a[k] == s;
                if k < a.len() - 1 {
                    assert(before[k] == s);
                    assert(before.contains(s));
                }
            }
            if before.contains(s) {
                let k = choose|k: int| 0 <= k < before.len() && before[k] == s;
                assert(a[k] == s);
            }
            if minus(before, b).contains(s) {
                let k = choose|k: int|
                    0 <= k < minus(before, b).len() && minus(before, b)[k] == s;
                assert(minus(a, b)[k] == s);
            }
            if p(a.last()) {
                assert(minus(a, b) == minus(before, b).push(a.last()));
                assert(minus(a, b)[minus(a, b).len() - 1] == a.last());
                if minus(a, b).contains(s) {
                    let k = choose|k: int| 0 <= k < minus(a, b).len() && minus(a, b)[k] == s;
                    if k < minus(before, b).len() {
                        assert(minus(before, b)[k] == s);
                    }
                }
            }
            assert(a.contains(a.last()));
        }
        if a.no_duplicates() {
            assert(before.no_duplicates());
            if p(a.last()) {
                let m = minus(before, b);
                assert forall|k: int| 0 <= k < m.len() implies m[k] != a.last() by {
                    assert(m.contains(m[k]));
                    let j = choose|j: int| 0 <= j < before.len() && before[j] == m[k];
                    assert(a[j] == m[k]);
                }
            }
        }
    } else {
        assert(minus(a, b) =~= seq![]);
    }
}

/// A map from texts to texts.
#[derive(Debug, Clone)]
pub struct TextMap {
    entries: Vec<(String, String)>,
}

/// The map that a list of entries makes; of two for one key the later counts.
pub open spec fn entry_map(entries: Seq<(String, String)>) -> Map<Seq<char>, Seq<char>>
    decreases entries.len(),
{
    if entries.len() == 0 {
        Map::empty()
    } else {
        entry_map(entries.drop_last()).insert(entries.last().0@, entries.last().1@)
    }
}

impl View for TextMap {
    type V = Map<Seq<char>, Seq<char>>;

    closed spec fn view(&self) -> Map<Seq<char>, Seq<char>> {
        entry_map(self.entries@)
    }
}

/// The last entry for a key is the one that counts.
pub proof fn lemma_entry_at(entries: Seq<(String, String)>, i: int)
    requires
        0 <= i < entries.len(),
        forall|j: int| i < j < entries.len() ==> (#[trigger] entries[j]).0@ != entries[i].0@,
    ensures
        entry_map(entries).dom().contains(entries[i].0@),
        entry_map(entries)[entries[i].0@] == entries[i].1@,
    decreases entries.len(),
{
    if i < entries.len() - 1 {
        let rest = entries.drop_last();
        assert(rest[i] == entries[i]);
        assert forall|j: int| i < j < rest.len() implies (#[trigger] rest[j]).0@ != rest[i].0@ by {
            assert(rest[j] == entries[j]);
        }
        lemma_entry_at(rest, i);
        assert(entries[entries.len() - 1].0@ != entries[i].0@);
    }
}

/// A key without an entry stands for nothing.
pub proof fn lemma_entry_missing(entries: Seq<(String, String)>, key: Seq<char>)
    requires
        forall|j: int| 0 <= j < entries.len() ==> (#[trigger] entries[j]).0@ != key,
    ensures
        !entry_map(entries).dom().contains(key),
    decreases entries.len(),
{
    if entries.len() > 0 {
        let rest = entries.drop_last();
        assert forall|j: int| 0 <= j < rest.len() implies (#[trigger] rest[j]).0@ != key by {
            assert(rest[j] == entries[j]);
        }
        lemma_entry_missing(rest, key);
        assert(entries[entries.len() - 1].0@ != key);
    }
}

proof fn lemma_entry_replaced(entries: Seq<(String, String)>, i: int, value: String)
    requires
        0 <= i < entries.len(),
        forall|j: int| i < j < entries.len() ==> (#[trigger] entries[j]).0@ != entries[i].0@,
    ensures
        entry_map(entries.update(i, (entries[i].0, value))) == entry_map(entries).insert(
            entries[i].0@,
            value@,
        ),
    decreases entries.len(),
{
    let after = entries.update(i, (entries[i].0, value));
    let rest = entries.drop_last();
    if i == entries.len() - 1 {
        assert(after.drop_last() =~= rest);
        assert(entry_map(after) =~= entry_map(entries).insert(entries[i].0@, value@));
    } else {
        assert(rest[i] == entries[i]);
        assert forall|j: int| i < j < rest.len() implies (#[trigger] rest[j]).0@ != rest[i].0@ by {
            assert(rest[j] == entries[j]);
        }
        lemma_entry_replaced(rest, i, value);
        assert(after.drop_last() =~= rest.update(i, (rest[i].0, value)));
        assert(entries[entries.len() - 1].0@ != entries[i].0@);
        assert(entry_map(after) =~= entry_map(entries).insert(entries[i].0@, value@));
    }
}

impl TextMap {
    /// The empty map.
    pub fn new() -> (r: Self)
        ensures
            r@ == Map::<Seq<char>, Seq<char>>::empty(),
    {
        TextMap { entries: Vec::new() }
    }

    /// The position of the entry that counts for a key.
    fn position(&self, key: &str) -> (r: Option<usize>)
        ensures
            match r {
                Some(i) => i < self.entries@.len() && self.entries@[i as int].0@ == key@ && forall|
                    j: int,
                |
                    i < j < self.entries@.len() ==> (#[trigger] self.entries@[j]).0@ != key@,
                None => forall|j: int|
                    0 <= j < self.entries@.len() ==> (#[trigger] self.entries@[j]).0@ != key@,
            },
    {
        let n: usize = self.entries.len();
        let mut i: usize = n;
        while i > 0
            invariant
                n == self.entries@.len(),
                i <= n,
                forall|j: int| i <= j < n ==> (#[trigger] self.entries@[j]).0@ != key@,
            decreases i,
        {
            i -= 1;
            if same(self.entries[i].0.as_str(), key) {
                return Some(i);
            }
        }
        None
    }

    /// The text that a key stands for.
    pub fn get(&self, key: &str) -> (r: Option<&String>)
        ensures
            match r {
                Some(value) => self@.dom().contains(key@) && self@[key@] == value@,
                None => !self@.dom().contains(key@),
            },
    {
        match self.position(key) {
            Some(i) => {
                proof {
                    lemma_entry_at(self.entries@, i as int);
                }
                Some(&self.entries[i].1)
            },
            None => {
                proof {
                    lemma_entry_missing(self.entries@, key@);
                }
                None
            },
        }
    }

    /// Lets a key stand for a text.
    pub fn insert(&mut self, key: &str, value: &str)
        ensures
            final(self)@ == old(self)@.insert(key@, value@),
    {
        let ghost before = self.entries@;
        match self.position(key) {
            Some(i) => {
                let text: String = owned(value);
                proof {
                    lemma_entry_replaced(before, i as int, text);
                }
                let name: String = self.entries[i].0.clone();
                self.entries.set(i, (name, text));
                assert(self.entries@ =~= before.update(i as int, (before[i as int].0, text)));
            },
            None => {
                self.entries.push((owned(key), owned(value)));
                assert(self.entries@.drop_last() =~= before);
            },
        }
    }

    /// The entries of the map, from which it can be made again.
    pub fn to_vec(&self) -> (r: Vec<(String, String)>)
        ensures
            entry_map(r@) == self@,
    {
        let mut out: Vec<(String, String)> = Vec::new();
        let mut i: usize = 0;
        while i < self.entries.len()
            invariant
                i <= self.entries@.len(),
                out@ =~= self.entries@.take(i as int),
            decreases self.entries@.len() - i,
        {
            out.push((self.entries[i].0.clone(), self.entries[i].1.clone()));
            i += 1;
        }
        assert(self.entries@.take(i as int) =~= self.entries@);
        out
    }
}

/// A text that is added is there, and what was there before is where it was. Nothing else
/// is there, and nothing is there twice that was not before.
pub proof fn law_added(v: Seq<Seq<char>>, s: Seq<char>)
    ensures
        added(v, s).contains(s),
        v.is_prefix_of(added(v, s)),
        added(v, s).len() == v.len() + (if v.contains(s) {
            0int
        } else {
            1int
        }),
        forall|t: Seq<char>| #[trigger] added(v, s).contains(t) <==> v.contains(t) || t == s,
        v.no_duplicates() ==> added(v, s).no_duplicates(),
{
    let all = added(v, s);
    if !v.contains(s) {
        assert(all[v.len() as int] == s);
    }
    assert forall|t: Seq<char>| #[trigger] all.contains(t) <==> v.contains(t) || t == s by {
        if v.contains(t) {
            let k = choose|k: int| 0 <= k < v.len() && v[k] == t;
            assert(all[k] == t);
        }
        if all.contains(t) {
            let k = choose|k: int| 0 <= k < all.len() && all[k] == t;
            if k < v.len() {
                assert(v[k] == t);
            }
        }
    }
}

/// What is left of texts without others is every text that is not among those, in order.
pub proof fn law_minus(a: Seq<Seq<char>>, b: Seq<Seq<char>>)
    ensures
        exists|at: Seq<int>|
            {
                &&& #[trigger] rises(at)
                &&& at.len() == minus(a, b).len()
                &&& forall|k: int|
                    0 <= k < at.len() ==> 0 <= #[trigger] at[k] < a.len() && minus(a, b)[k] == a[at[k]]
                        && !b.contains(a[at[k]])
                &&& forall|i: int|
                    0 <= i < a.len() && !b.contains(#[trigger] a[i]) ==> at.contains(i)
            },
{
    let at = lemma_kept_places(a, |s: Seq<char>| !b.contains(s));
    assert(rises(at));
}

} // verus!
