//! A small map from names to values, names compared as strings.
use vstd::prelude::*;
use crate::lex::{compare_bytes, ByteOrder};

verus! {

/// Compares two strings for equality.
pub fn str_eq(a: &str, b: &str) -> (r: bool)
    ensures
        r == (a@ == b@),
{
    let ab = a.as_bytes();
    let bb = b.as_bytes();
    let o = compare_bytes(ab, bb);
    proof {
        vstd::utf8::encode_utf8_decode_utf8(a@);
        vstd::utf8::encode_utf8_decode_utf8(b@);
    }
    match o {
        ByteOrder::Equal => true,
        _ => false,
    }
}

/// A value whose contents can be copied.
pub trait Duplicate: View + Sized {
    fn duplicate(&self) -> (r: Self)
        ensures
            r@ == self@,
    ;
}

/// Values by name, each name at most once.
pub struct NamedMap<T: View> {
    items: Vec<(&'static str, T)>,
}

impl<T: View> View for NamedMap<T> {
    type V = Map<Seq<char>, T::V>;

    closed spec fn view(&self) -> Map<Seq<char>, T::V> {
        named_view(self.items@)
    }
}

/// The map that a list of named values with distinct names stands for.
pub closed spec fn named_view<T: View>(items: Seq<(&'static str, T)>) -> Map<Seq<char>, T::V> {
    Map::new(
        |n: Seq<char>| exists|i: int| 0 <= i < items.len() && #[trigger] items[i].0@ == n,
        |n: Seq<char>| items[choose|i: int| 0 <= i < items.len() && #[trigger] items[i].0@ == n].1@,
    )
}

pub closed spec fn names_distinct<T>(items: Seq<(&'static str, T)>) -> bool {
    forall|i: int, j: int|
        0 <= i < items.len() && 0 <= j < items.len() && i != j ==> #[trigger] items[i].0@
            != #[trigger] items[j].0@
}

proof fn lemma_named_index<T: View>(items: Seq<(&'static str, T)>, i: int)
    requires
        names_distinct(items),
        0 <= i < items.len(),
    ensures
        named_view(items).contains_key(items[i].0@),
        named_view(items)[items[i].0@] == items[i].1@,
{
    let n = items[i].0@;
    assert(items[i].0@ == n);
    let j = choose|j: int| 0 <= j < items.len() && #[trigger] items[j].0@ == n;
    assert(j == i);
}

proof fn lemma_named_absent<T: View>(items: Seq<(&'static str, T)>, n: Seq<char>)
    requires
        forall|i: int| 0 <= i < items.len() ==> #[trigger] items[i].0@ != n,
    ensures
        !named_view(items).contains_key(n),
{
}

impl<T: View> NamedMap<T> {
    #[verifier::type_invariant]
    spec fn wf(self) -> bool {
        names_distinct(self.items@)
    }

    pub fn new() -> (m: Self)
        ensures
            m@ == Map::<Seq<char>, T::V>::empty(),
    {
        let m = NamedMap { items: Vec::new() };
        assert(named_view(m.items@) =~= Map::<Seq<char>, T::V>::empty());
        m
    }

    fn index_of(&self, name: &str) -> (r: Option<usize>)
        ensures
            r matches Some(i) ==> i < self.items@.len() && self.items@[i as int].0@ == name@,
            r is None ==> forall|i: int|
                0 <= i < self.items@.len() ==> #[trigger] self.items@[i].0@ != name@,
    {
        let mut i: usize = 0;
        while i < self.items.len()
            invariant
                i <= self.items@.len(),
                forall|j: int| 0 <= j < i ==> #[trigger] self.items@[j].0@ != name@,
            decreases self.items@.len() - i,
        {
            if str_eq(self.items[i].0, name) {
                return Some(i);
            }
            i = i + 1;
        }
        None
    }

    /// Whether a value is named `name`.
    pub fn contains(&self, name: &str) -> (r: bool)
        ensures
            r == self@.contains_key(name@),
    {
        proof {
            use_type_invariant(self);
        }
        match self.index_of(name) {
            Some(i) => {
                proof {
                    lemma_named_index(self.items@, i as int);
                }
                true
            },
            None => {
                proof {
                    lemma_named_absent(self.items@, name@);
                }
                false
            },
        }
    }

    /// The value named `name`.
    pub fn get(&self, name: &str) -> (r: &T)
        requires
            self@.contains_key(name@),
        ensures
            r@ == self@[name@],
    {
        proof {
            use_type_invariant(self);
        }
        match self.index_of(name) {
            Some(i) => {
                proof {
                    lemma_named_index(self.items@, i as int);
                }
                &self.items[i].1
            },
            None => {
                proof {
                    lemma_named_absent(self.items@, name@);
                }
                &self.items[0].1
            },
        }
    }

    /// Removes the value named `name` and returns it.
    pub fn take(&mut self, name: &str) -> (r: T)
        requires
            old(self)@.contains_key(name@),
        ensures
            r@ == old(self)@[name@],
            final(self)@ == old(self)@.remove(name@),
    {
        proof {
            use_type_invariant(&*self);
        }
        let i = match self.index_of(name) {
            Some(i) => i,
            None => {
                proof {
                    lemma_named_absent(self.items@, name@);
                }
                0
            },
        };
        proof {
            lemma_named_index(self.items@, i as int);
        }
        let ghost old_items = self.items@;
        let mut items_vec: Vec<(&'static str, T)> = Vec::new();
        std::mem::swap(&mut items_vec, &mut self.items);
        let (_, value) = items_vec.remove(i);
        proof {
            let items = items_vec@;
            assert(items =~= old_items.remove(i as int));
            assert forall|a: int, b: int|
                0 <= a < items.len() && 0 <= b < items.len() && a != b implies #[trigger] items[a].0@
                != #[trigger] items[b].0@ by {
                let a0 = if a < i { a } else { a + 1 };
                let b0 = if b < i { b } else { b + 1 };
                assert(items[a] == old_items[a0]);
                assert(items[b] == old_items[b0]);
            }
            assert(named_view(items) =~= named_view(old_items).remove(name@)) by {
                assert forall|n: Seq<char>| #[trigger]
                    named_view(items).contains_key(n) <==> named_view(old_items).remove(
                        name@,
                    ).contains_key(n) by {
                    if named_view(items).contains_key(n) {
                        let j = choose|j: int| 0 <= j < items.len() && #[trigger] items[j].0@ == n;
                        let j0 = if j < i { j } else { j + 1 };
                        assert(old_items[j0].0@ == n);
                        assert(j0 != i);
                    }
                    if named_view(old_items).remove(name@).contains_key(n) {
                        let j0 = choose|j: int|
                            0 <= j < old_items.len() && #[trigger] old_items[j].0@ == n;
                        assert(j0 != i);
                        let j = if j0 < i { j0 } else { j0 - 1 };
                        assert(items[j].0@ == n);
                    }
                }
                assert forall|n: Seq<char>| #[trigger]
                    named_view(items).contains_key(n) implies named_view(items)[n] == named_view(
                    old_items,
                )[n] by {
                    let j = choose|j: int| 0 <= j < items.len() && #[trigger] items[j].0@ == n;
                    let j0 = if j < i { j } else { j + 1 };
                    lemma_named_index(items, j);
                    lemma_named_index(old_items, j0);
                }
            }
        }
        self.items = items_vec;
        value
    }

    /// Names `value` `name`, replacing what had that name.
    pub fn set(&mut self, name: &'static str, value: T)
        ensures
            final(self)@ == old(self)@.insert(name@, value@),
    {
        proof {
            use_type_invariant(&*self);
        }
        if self.contains(name) {
            let _ = self.take(name);
        }
        proof {
            use_type_invariant(&*self);
        }
        let ghost before = self.items@;
        let ghost before_view = self@;
        assert(!before_view.contains_key(name@));
        assert forall|i: int| 0 <= i < before.len() implies #[trigger] before[i].0@ != name@ by {
            if before[i].0@ == name@ {
                lemma_named_index(before, i);
            }
        }
        let mut items_vec: Vec<(&'static str, T)> = Vec::new();
        std::mem::swap(&mut items_vec, &mut self.items);
        items_vec.push((name, value));
        proof {
            let items = items_vec@;
            assert forall|a: int, b: int|
                0 <= a < items.len() && 0 <= b < items.len() && a != b implies #[trigger] items[a].0@
                != #[trigger] items[b].0@ by {
                if a < before.len() && b < before.len() {
                    assert(items[a] == before[a] && items[b] == before[b]);
                } else if a < before.len() {
                    assert(items[a] == before[a]);
                } else if b < before.len() {
                    assert(items[b] == before[b]);
                }
            }
            assert(named_view(items) =~= before_view.insert(name@, value@)) by {
                assert forall|n: Seq<char>| #[trigger]
                    named_view(items).contains_key(n) <==> before_view.insert(
                        name@,
                        value@,
                    ).contains_key(n) by {
                    if named_view(items).contains_key(n) && n != name@ {
                        let j = choose|j: int| 0 <= j < items.len() && #[trigger] items[j].0@ == n;
                        assert(j < before.len());
                        assert(before[j].0@ == n);
                    }
                    if before_view.contains_key(n) {
                        let j = choose|j: int| 0 <= j < before.len() && #[trigger] before[j].0@ == n;
                        assert(items[j].0@ == n);
                    }
                    if n == name@ {
                        assert(items[before.len() as int].0@ == n);
                    }
                }
                assert forall|n: Seq<char>| #[trigger]
                    named_view(items).contains_key(n) implies named_view(items)[n]
                    == before_view.insert(name@, value@)[n] by {
                    let j = choose|j: int| 0 <= j < items.len() && #[trigger] items[j].0@ == n;
                    lemma_named_index(items, j);
                    if j < before.len() {
                        assert(items[j] == before[j]);
                        lemma_named_index(before, j);
                    }
                }
            }
        }
        self.items = items_vec;
    }
}

impl<T: Duplicate> Duplicate for NamedMap<T> {
    fn duplicate(&self) -> (r: Self) {
        proof {
            use_type_invariant(self);
        }
        let mut items: Vec<(&'static str, T)> = Vec::new();
        let mut i: usize = 0;
        while i < self.items.len()
            invariant
                i <= self.items@.len(),
                names_distinct(self.items@),
                items@.len() == i,
                forall|j: int|
                    0 <= j < i ==> (#[trigger] items@[j]).0 == self.items@[j].0 && items@[j].1@
                        == self.items@[j].1@,
            decreases self.items@.len() - i,
        {
            let name = self.items[i].0;
            let value = self.items[i].1.duplicate();
            items.push((name, value));
            i = i + 1;
        }
        proof {
            let s = self.items@;
            let t = items@;
            assert(names_distinct(t)) by {
                assert forall|a: int, b: int|
                    0 <= a < t.len() && 0 <= b < t.len() && a != b implies #[trigger] t[a].0@
                    != #[trigger] t[b].0@ by {
                    assert(s[a].0@ != s[b].0@);
                }
            }
            assert forall|n: Seq<char>| #[trigger] named_view(t).contains_key(n) <==> named_view(
                s,
            ).contains_key(n) by {
                if named_view(t).contains_key(n) {
                    let j = choose|j: int| 0 <= j < t.len() && #[trigger] t[j].0@ == n;
                    assert(s[j].0@ == n);
                }
                if named_view(s).contains_key(n) {
                    let j = choose|j: int| 0 <= j < s.len() && #[trigger] s[j].0@ == n;
                    assert(t[j].0@ == n);
                }
            }
            assert forall|n: Seq<char>| #[trigger] named_view(t).contains_key(n) implies named_view(
                t,
            )[n] == named_view(s)[n] by {
                let j = choose|j: int| 0 <= j < t.len() && #[trigger] t[j].0@ == n;
                lemma_named_index(t, j);
                lemma_named_index(s, j);
            }
            assert(named_view(t) =~= named_view(s));
        }
        NamedMap { items }
    }
}

} // verus!
