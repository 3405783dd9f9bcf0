//! The indexes of a collection, as a type-level list.
use vstd::prelude::*;
use core::marker::PhantomData;
use crate::backend::named::str_eq;
use crate::entity::{stored_record, Entity};
use crate::error::Error;
use crate::index::{
    entry_key, index_consistent, index_spec_remove, index_spec_update, lemma_index_remove,
    lemma_index_write, Index,
};
use crate::key::Key;
use crate::store::{KvView, MultiStoreWriteHandle, StoresView, WriteKVStore};

verus! {

/// The optional record behind an optional reference.
pub open spec fn deref_opt<R>(r: Option<&R>) -> Option<R> {
    match r {
        Some(x) => Some(*x),
        None => None,
    }
}

/// The stores with the entry `k` removed from the store `n`.
pub open spec fn remove_entry(s: StoresView, n: Seq<char>, k: Seq<u8>) -> StoresView {
    s.insert(n, s[n].remove(k))
}

/// Every name is a store of `staged`.
pub open spec fn has_stores(staged: StoresView, names: Seq<Seq<char>>) -> bool {
    forall|i: int| 0 <= i < names.len() ==> staged.contains_key(#[trigger] names[i])
}

/// A list of the indexes of the records of type `Record`, kept up to date
/// together.
pub trait IndexRegistry<Record: Entity>: Sized {
    /// The names of the index stores, in the order in which they are updated.
    spec fn spec_names() -> Seq<Seq<char>>;

    /// Whether one of the indexes may fail for a reason of its own.
    spec fn spec_may_fail() -> bool;

    /// The stores after every index is updated for `new`, formerly
    /// `previous`; `None` when an index refuses it.
    spec fn spec_update(
        staged: StoresView,
        pk: Seq<u8>,
        previous: Option<Record>,
        new: Record,
    ) -> Option<StoresView>;

    /// The stores after the entries of `item` are removed from every index.
    spec fn spec_remove(staged: StoresView, pk: Seq<u8>, item: Record) -> StoresView;

    /// Updating the indexes changes no store but theirs.
    proof fn lemma_update_frame(
        staged: StoresView,
        pk: Seq<u8>,
        previous: Option<Record>,
        new: Record,
        n: Seq<char>,
    )
        ensures
            Self::spec_update(staged, pk, previous, new) matches Some(s) ==> (
            !Self::spec_names().contains(n) && staged.contains_key(n) ==> s.contains_key(n) && s[n]
                == staged[n]),
    ;

    /// Removing index entries changes no store but the indexes'.
    proof fn lemma_remove_frame(staged: StoresView, pk: Seq<u8>, item: Record, n: Seq<char>)
        ensures
            !Self::spec_names().contains(n) && staged.contains_key(n) ==> Self::spec_remove(
                staged,
                pk,
                item,
            ).contains_key(n) && Self::spec_remove(staged, pk, item)[n] == staged[n],
    ;

    /// Every index store of `stores` holds exactly the entries of `records`.
    spec fn spec_consistent(records: KvView, stores: StoresView) -> bool;

    /// Whether the stores are consistent depends on the index stores alone.
    proof fn lemma_consistent_frame(records: KvView, s1: StoresView, s2: StoresView)
        requires
            forall|i: int|
                0 <= i < Self::spec_names().len() ==> s1[#[trigger] Self::spec_names()[i]]
                    == s2[Self::spec_names()[i]],
        ensures
            Self::spec_consistent(records, s1) == Self::spec_consistent(records, s2),
    ;

    /// Writing a record whose bytes decode back to it, where every index
    /// accepts it, keeps the indexes consistent with the records.
    proof fn lemma_update_consistent(
        records: KvView,
        stores: StoresView,
        pk: Seq<u8>,
        previous: Option<Record>,
        new: Record,
    )
        requires
            Self::spec_names().no_duplicates(),
            Self::spec_consistent(records, stores),
            Record::spec_from_bytes(new.spec_to_bytes()) == new,
            previous == stored_record::<Record>(records, pk),
            Self::spec_update(stores, pk, previous, new) is Some,
        ensures
            Self::spec_consistent(
                records.insert(pk, new.spec_to_bytes()),
                Self::spec_update(stores, pk, previous, new)->0,
            ),
    ;

    /// Removing a record, with its entries, keeps the indexes consistent with
    /// the records.
    proof fn lemma_remove_consistent(records: KvView, stores: StoresView, pk: Seq<u8>)
        requires
            Self::spec_names().no_duplicates(),
            Self::spec_consistent(records, stores),
            records.contains_key(pk),
        ensures
            Self::spec_consistent(
                records.remove(pk),
                Self::spec_remove(stores, pk, Record::spec_from_bytes(records[pk])),
            ),
    ;

    /// Updating the indexes adds no store and drops none.
    proof fn lemma_update_domain(staged: StoresView, pk: Seq<u8>, previous: Option<Record>, new: Record)
        requires
            has_stores(staged, Self::spec_names()),
        ensures
            Self::spec_update(staged, pk, previous, new) matches Some(s) ==> s.dom() == staged.dom(),
    ;

    /// Removing index entries adds no store and drops none.
    proof fn lemma_remove_domain(staged: StoresView, pk: Seq<u8>, item: Record)
        requires
            has_stores(staged, Self::spec_names()),
        ensures
            Self::spec_remove(staged, pk, item).dom() == staged.dom(),
    ;

    /// Removing one entry from a store, then the entries of a record, is
    /// removing the record's entries, then that entry.
    proof fn lemma_remove_commutes(x: StoresView, pk: Seq<u8>, item: Record, n: Seq<char>, k: Seq<u8>)
        requires
            has_stores(x, Self::spec_names()),
            x.contains_key(n),
        ensures
            Self::spec_remove(remove_entry(x, n, k), pk, item) == remove_entry(
                Self::spec_remove(x, pk, item),
                n,
                k,
            ),
    ;

    /// Indexing a record with no former version only adds entries: every
    /// entry already stored stays as it was.
    proof fn lemma_update_keeps_entries(
        s: StoresView,
        pk: Seq<u8>,
        new: Record,
        n: Seq<char>,
        k: Seq<u8>,
    )
        requires
            has_stores(s, Self::spec_names()),
            Self::spec_update(s, pk, None, new) is Some,
            s.contains_key(n),
            s[n].contains_key(k),
        ensures
            Self::spec_update(s, pk, None, new)->0.contains_key(n),
            Self::spec_update(s, pk, None, new)->0[n].contains_key(k),
            Self::spec_update(s, pk, None, new)->0[n][k] == s[n][k],
    ;

    /// Removing the entries of a record that was just indexed, with no
    /// former version, gives every store back as it was.
    proof fn lemma_remove_undoes_update(s: StoresView, pk: Seq<u8>, new: Record)
        requires
            has_stores(s, Self::spec_names()),
            Self::spec_update(s, pk, None, new) is Some,
        ensures
            Self::spec_remove(Self::spec_update(s, pk, None, new)->0, pk, new) == s,
    ;

    /// Updates every index for `new`, formerly `previous`.
    fn update<DB: MultiStoreWriteHandle>(
        db: &mut DB,
        pk: &Record::Key,
        previous: Option<&Record>,
        new: &Record,
    ) -> (r: Result<(), Error>)
        requires
            has_stores(old(db).staged(), Self::spec_names()),
        ensures
            final(db).namespace() == old(db).namespace(),
            r is Ok ==> Self::spec_update(
                old(db).staged(),
                <Record::Key as Key>::spec_encode(pk@),
                deref_opt(previous),
                *new,
            ) == Some(final(db).staged()),
            Self::spec_update(
                old(db).staged(),
                <Record::Key as Key>::spec_encode(pk@),
                deref_opt(previous),
                *new,
            ) is None ==> r is Err,
            !(r matches Err(Error::NotFound(_))),
            !(r matches Err(Error::Codec(_))),
            final(db).staging_healthy() == old(db).staging_healthy(),
            old(db).staging_healthy() ==> !(r matches Err(Error::Backend(_))),
            r matches Err(Error::Unexpected(_)) ==> Self::spec_may_fail(),
            r matches Err(Error::AlreadyExists(_)) ==> Self::spec_update(
                old(db).staged(),
                <Record::Key as Key>::spec_encode(pk@),
                deref_opt(previous),
                *new,
            ) is None,
    ;

    /// Removes the entries of `item` from every index.
    fn remove<DB: MultiStoreWriteHandle>(db: &mut DB, pk: &Record::Key, item: &Record) -> (r: Result<
        (),
        Error,
    >)
        requires
            has_stores(old(db).staged(), Self::spec_names()),
        ensures
            final(db).namespace() == old(db).namespace(),
            r is Ok ==> final(db).staged() == Self::spec_remove(
                old(db).staged(),
                <Record::Key as Key>::spec_encode(pk@),
                *item,
            ),
            !(r matches Err(Error::NotFound(_))),
            !(r matches Err(Error::Codec(_))),
            !(r matches Err(Error::AlreadyExists(_))),
            final(db).staging_healthy() == old(db).staging_healthy(),
            old(db).staging_healthy() ==> !(r matches Err(Error::Backend(_))),
            r matches Err(Error::Unexpected(_)) ==> Self::spec_may_fail(),
    ;

    /// Whether one of the indexes is named `name`.
    fn has_index(name: &str) -> (r: bool)
        ensures
            r == Self::spec_names().contains(name@),
    ;
}

/// The empty list of indexes.
pub struct Nil;

/// An index followed by a list of indexes.
pub struct Cons<Head, Tail> {
    _marker: PhantomData<(Head, Tail)>,
}

impl<Record: Entity> IndexRegistry<Record> for Nil {
    open spec fn spec_names() -> Seq<Seq<char>> {
        Seq::empty()
    }

    open spec fn spec_may_fail() -> bool {
        false
    }

    open spec fn spec_update(
        staged: StoresView,
        pk: Seq<u8>,
        previous: Option<Record>,
        new: Record,
    ) -> Option<StoresView> {
        Some(staged)
    }

    open spec fn spec_remove(staged: StoresView, pk: Seq<u8>, item: Record) -> StoresView {
        staged
    }

    proof fn lemma_update_frame(
        staged: StoresView,
        pk: Seq<u8>,
        previous: Option<Record>,
        new: Record,
        n: Seq<char>,
    ) {
    }

    proof fn lemma_remove_frame(staged: StoresView, pk: Seq<u8>, item: Record, n: Seq<char>) {
    }

    open spec fn spec_consistent(records: KvView, stores: StoresView) -> bool {
        true
    }

    proof fn lemma_consistent_frame(records: KvView, s1: StoresView, s2: StoresView) {
    }

    proof fn lemma_update_consistent(
        records: KvView,
        stores: StoresView,
        pk: Seq<u8>,
        previous: Option<Record>,
        new: Record,
    ) {
    }

    proof fn lemma_remove_consistent(records: KvView, stores: StoresView, pk: Seq<u8>) {
    }

    proof fn lemma_update_domain(staged: StoresView, pk: Seq<u8>, previous: Option<Record>, new: Record) {
    }

    proof fn lemma_remove_domain(staged: StoresView, pk: Seq<u8>, item: Record) {
    }

    proof fn lemma_remove_commutes(x: StoresView, pk: Seq<u8>, item: Record, n: Seq<char>, k: Seq<u8>) {
    }

    proof fn lemma_update_keeps_entries(
        s: StoresView,
        pk: Seq<u8>,
        new: Record,
        n: Seq<char>,
        k: Seq<u8>,
    ) {
    }

    proof fn lemma_remove_undoes_update(s: StoresView, pk: Seq<u8>, new: Record) {
    }

    fn update<DB: MultiStoreWriteHandle>(
        db: &mut DB,
        pk: &Record::Key,
        previous: Option<&Record>,
        new: &Record,
    ) -> (r: Result<(), Error>)
        ensures
            r is Ok,
            final(db).staged() == old(db).staged(),
    {
        Ok(())
    }

    fn remove<DB: MultiStoreWriteHandle>(db: &mut DB, pk: &Record::Key, item: &Record) -> (r: Result<
        (),
        Error,
    >)
        ensures
            r is Ok,
            final(db).staged() == old(db).staged(),
    {
        Ok(())
    }

    fn has_index(name: &str) -> (r: bool) {
        false
    }
}

impl<Record: Entity, Head: Index<Record>, Tail: IndexRegistry<Record>> IndexRegistry<Record> for Cons<
    Head,
    Tail,
> {
    open spec fn spec_names() -> Seq<Seq<char>> {
        seq![Head::spec_name()] + Tail::spec_names()
    }

    open spec fn spec_may_fail() -> bool {
        Head::spec_may_fail() || Tail::spec_may_fail()
    }

    open spec fn spec_update(
        staged: StoresView,
        pk: Seq<u8>,
        previous: Option<Record>,
        new: Record,
    ) -> Option<StoresView> {
        match index_spec_update::<Record, Head>(staged, pk, previous, new) {
            Some(s) => Tail::spec_update(s, pk, previous, new),
            None => None,
        }
    }

    open spec fn spec_remove(staged: StoresView, pk: Seq<u8>, item: Record) -> StoresView {
        Tail::spec_remove(index_spec_remove::<Record, Head>(staged, pk, item), pk, item)
    }

    proof fn lemma_update_frame(
        staged: StoresView,
        pk: Seq<u8>,
        previous: Option<Record>,
        new: Record,
        n: Seq<char>,
    ) {
        if !Self::spec_names().contains(n) {
            assert(Self::spec_names()[0] == Head::spec_name());
            if Tail::spec_names().contains(n) {
                let j = choose|j: int| 0 <= j < Tail::spec_names().len() && Tail::spec_names()[j] == n;
                assert(Self::spec_names()[j + 1] == n);
            }
            if let Some(s1) = index_spec_update::<Record, Head>(staged, pk, previous, new) {
                Tail::lemma_update_frame(s1, pk, previous, new, n);
            }
        }
    }

    proof fn lemma_remove_frame(staged: StoresView, pk: Seq<u8>, item: Record, n: Seq<char>) {
        if !Self::spec_names().contains(n) {
            assert(Self::spec_names()[0] == Head::spec_name());
            if Tail::spec_names().contains(n) {
                let j = choose|j: int| 0 <= j < Tail::spec_names().len() && Tail::spec_names()[j] == n;
                assert(Self::spec_names()[j + 1] == n);
            }
            Tail::lemma_remove_frame(index_spec_remove::<Record, Head>(staged, pk, item), pk, item, n);
        }
    }

    open spec fn spec_consistent(records: KvView, stores: StoresView) -> bool {
        &&& index_consistent::<Record, Head>(records, stores[Head::spec_name()])
        &&& Tail::spec_consistent(records, stores)
    }

    proof fn lemma_consistent_frame(records: KvView, s1: StoresView, s2: StoresView) {
        let names = Self::spec_names();
        assert(names[0] == Head::spec_name());
        assert forall|i: int| 0 <= i < Tail::spec_names().len() implies s1[#[trigger] Tail::spec_names()[i]]
            == s2[Tail::spec_names()[i]] by {
            assert(names[i + 1] == Tail::spec_names()[i]);
        }
        Tail::lemma_consistent_frame(records, s1, s2);
    }

    proof fn lemma_update_consistent(
        records: KvView,
        stores: StoresView,
        pk: Seq<u8>,
        previous: Option<Record>,
        new: Record,
    ) {
        let h = Head::spec_name();
        Self::lemma_names_split();
        lemma_index_write::<Record, Head>(records, stores[h], pk, previous, new);
        let s1 = index_spec_update::<Record, Head>(stores, pk, previous, new)->0;
        assert forall|i: int| 0 <= i < Tail::spec_names().len() implies stores[#[trigger] Tail::spec_names()[i]]
            == s1[Tail::spec_names()[i]] by {
            assert(Tail::spec_names().contains(Tail::spec_names()[i]));
        }
        Tail::lemma_consistent_frame(records, stores, s1);
        Tail::lemma_update_consistent(records, s1, pk, previous, new);
        Tail::lemma_update_frame(s1, pk, previous, new, h);
    }

    proof fn lemma_remove_consistent(records: KvView, stores: StoresView, pk: Seq<u8>) {
        let h = Head::spec_name();
        let item = Record::spec_from_bytes(records[pk]);
        Self::lemma_names_split();
        lemma_index_remove::<Record, Head>(records, stores[h], pk);
        let s1 = index_spec_remove::<Record, Head>(stores, pk, item);
        assert forall|i: int| 0 <= i < Tail::spec_names().len() implies stores[#[trigger] Tail::spec_names()[i]]
            == s1[Tail::spec_names()[i]] by {
            assert(Tail::spec_names().contains(Tail::spec_names()[i]));
        }
        Tail::lemma_consistent_frame(records, stores, s1);
        Tail::lemma_remove_consistent(records, s1, pk);
        Tail::lemma_remove_frame(s1, pk, item, h);
    }

    proof fn lemma_update_domain(staged: StoresView, pk: Seq<u8>, previous: Option<Record>, new: Record) {
        let names = Self::spec_names();
        let h = Head::spec_name();
        assert(names[0] == h);
        assert forall|i: int| 0 <= i < Tail::spec_names().len() implies staged.contains_key(
            #[trigger] Tail::spec_names()[i],
        ) by {
            assert(names[i + 1] == Tail::spec_names()[i]);
        }
        if let Some(s1) = index_spec_update::<Record, Head>(staged, pk, previous, new) {
            assert(s1.dom() =~= staged.dom());
            Tail::lemma_update_domain(s1, pk, previous, new);
        }
    }

    proof fn lemma_remove_domain(staged: StoresView, pk: Seq<u8>, item: Record) {
        let names = Self::spec_names();
        let h = Head::spec_name();
        assert(names[0] == h);
        assert forall|i: int| 0 <= i < Tail::spec_names().len() implies staged.contains_key(
            #[trigger] Tail::spec_names()[i],
        ) by {
            assert(names[i + 1] == Tail::spec_names()[i]);
        }
        let s1 = index_spec_remove::<Record, Head>(staged, pk, item);
        assert(s1.dom() =~= staged.dom());
        Tail::lemma_remove_domain(s1, pk, item);
    }

    proof fn lemma_remove_commutes(x: StoresView, pk: Seq<u8>, item: Record, n: Seq<char>, k: Seq<u8>) {
        let names = Self::spec_names();
        let h = Head::spec_name();
        let e = entry_key::<Record, Head>(item, pk);
        assert(names[0] == h);
        assert forall|i: int| 0 <= i < Tail::spec_names().len() implies x.contains_key(
            #[trigger] Tail::spec_names()[i],
        ) by {
            assert(names[i + 1] == Tail::spec_names()[i]);
        }
        let xh = remove_entry(x, h, e);
        assert(remove_entry(remove_entry(x, n, k), h, e) =~= remove_entry(xh, n, k)) by {
            if n == h {
                assert(x[n].remove(k).remove(e) =~= x[n].remove(e).remove(k));
            }
        }
        assert(xh.dom() =~= x.dom());
        Tail::lemma_remove_commutes(xh, pk, item, n, k);
    }

    proof fn lemma_update_keeps_entries(
        s: StoresView,
        pk: Seq<u8>,
        new: Record,
        n: Seq<char>,
        k: Seq<u8>,
    ) {
        let names = Self::spec_names();
        let h = Head::spec_name();
        let e = entry_key::<Record, Head>(new, pk);
        assert(names[0] == h);
        let s1 = index_spec_update::<Record, Head>(s, pk, None, new)->0;
        assert(!s[h].contains_key(e));
        assert(s1 == s.insert(h, s[h].insert(e, pk)));
        assert forall|i: int| 0 <= i < Tail::spec_names().len() implies s1.contains_key(
            #[trigger] Tail::spec_names()[i],
        ) by {
            assert(names[i + 1] == Tail::spec_names()[i]);
        }
        Tail::lemma_update_keeps_entries(s1, pk, new, n, k);
    }

    proof fn lemma_remove_undoes_update(s: StoresView, pk: Seq<u8>, new: Record) {
        let names = Self::spec_names();
        let h = Head::spec_name();
        let e = entry_key::<Record, Head>(new, pk);
        assert(names[0] == h);
        let s1 = index_spec_update::<Record, Head>(s, pk, None, new)->0;
        assert(!s[h].contains_key(e));
        assert(s1 == s.insert(h, s[h].insert(e, pk)));
        assert forall|i: int| 0 <= i < Tail::spec_names().len() implies s1.contains_key(
            #[trigger] Tail::spec_names()[i],
        ) by {
            assert(names[i + 1] == Tail::spec_names()[i]);
        }
        let t = Tail::spec_update(s1, pk, None, new)->0;
        Tail::lemma_update_domain(s1, pk, None, new);
        assert forall|i: int| 0 <= i < Tail::spec_names().len() implies t.contains_key(
            #[trigger] Tail::spec_names()[i],
        ) by {
            assert(s1.contains_key(Tail::spec_names()[i]));
        }
        assert(t.contains_key(h));
        Tail::lemma_remove_commutes(t, pk, new, h, e);
        Tail::lemma_remove_undoes_update(s1, pk, new);
        assert(index_spec_remove::<Record, Head>(t, pk, new) == remove_entry(t, h, e));
        assert(remove_entry(s1, h, e) =~= s) by {
            assert(s1[h].remove(e) =~= s[h]);
        }
    }

    fn update<DB: MultiStoreWriteHandle>(
        db: &mut DB,
        pk: &Record::Key,
        previous: Option<&Record>,
        new: &Record,
    ) -> (r: Result<(), Error>) {
        assert(Self::spec_names()[0] == Head::spec_name());
        if let Err(e) = Head::update(db, pk, previous, new) {
            return Err(e);
        }
        assert forall|i: int| 0 <= i < Tail::spec_names().len() implies db.staged().contains_key(
            #[trigger] Tail::spec_names()[i],
        ) by {
            assert(Self::spec_names()[i + 1] == Tail::spec_names()[i]);
        }
        Tail::update(db, pk, previous, new)
    }

    fn remove<DB: MultiStoreWriteHandle>(db: &mut DB, pk: &Record::Key, item: &Record) -> (r: Result<
        (),
        Error,
    >) {
        assert(Self::spec_names()[0] == Head::spec_name());
        if let Err(e) = Head::remove(db, pk, item) {
            return Err(e);
        }
        assert forall|i: int| 0 <= i < Tail::spec_names().len() implies db.staged().contains_key(
            #[trigger] Tail::spec_names()[i],
        ) by {
            assert(Self::spec_names()[i + 1] == Tail::spec_names()[i]);
        }
        Tail::remove(db, pk, item)
    }

    fn has_index(name: &str) -> (r: bool) {
        let ghost names = Self::spec_names();
        assert(names[0] == Head::spec_name());
        assert forall|x: Seq<char>| names.contains(x) == (x == Head::spec_name()
            || Tail::spec_names().contains(x)) by {
            if Tail::spec_names().contains(x) {
                let j = choose|j: int| 0 <= j < Tail::spec_names().len() && Tail::spec_names()[j] == x;
                assert(names[j + 1] == x);
            }
            if names.contains(x) && x != Head::spec_name() {
                let j = choose|j: int| 0 <= j < names.len() && names[j] == x;
                assert(Tail::spec_names()[j - 1] == x);
            }
        }
        str_eq(Head::name(), name) || Tail::has_index(name)
    }
}

impl<Head, Tail> Cons<Head, Tail> {
    /// Where the names of a list of indexes are distinct, the first is not
    /// among the others, and the others are distinct.
    proof fn lemma_names_split<Record: Entity>()
        where Head: Index<Record>, Tail: IndexRegistry<Record>,
        requires
            <Self as IndexRegistry<Record>>::spec_names().no_duplicates(),
        ensures
            !Tail::spec_names().contains(Head::spec_name()),
            Tail::spec_names().no_duplicates(),
    {
        let names = <Self as IndexRegistry<Record>>::spec_names();
        assert(names[0] == Head::spec_name());
        if Tail::spec_names().contains(Head::spec_name()) {
            let j = choose|j: int| 0 <= j < Tail::spec_names().len() && Tail::spec_names()[j] == Head::spec_name();
            assert(names[j + 1] == names[0]);
        }
        assert forall|i: int, j: int|
            0 <= i < Tail::spec_names().len() && 0 <= j < Tail::spec_names().len() && i != j implies Tail::spec_names()[i]
                != Tail::spec_names()[j] by {
            assert(names[i + 1] == Tail::spec_names()[i]);
            assert(names[j + 1] == Tail::spec_names()[j]);
        }
    }
}

} // verus!
