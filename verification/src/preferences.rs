//! The preferences facade: an in-memory store of loaded domain documents
//! and the operation surface over it.
//!
//! The store maps each domain to the document loaded for it.  A domain
//! with no entry behaves as an empty dictionary on reads and is created
//! on the first write, mirroring a domain with no backing file.  The I/O
//! shell attaches documents it has loaded, calls the operations, and
//! persists the documents the operations report as changed.

use vstd::prelude::*;

use crate::dict::dict_get;
use crate::dict::dict_has;
use crate::dict::dict_insert;
use crate::dict::dict_remove;
use crate::document::LoadedPlist;
use crate::document::SpecDoc;
use crate::document::spec_doc_wf;
use crate::domain::Domain;
use crate::domain::SpecDomain;
use crate::error::PrefError;
use crate::values::PrefValue;
use crate::values::SpecValue;

verus! {

/// Model of the store's entry list, entry by entry.
pub open spec fn spec_store_of(s: Seq<(Domain, LoadedPlist)>) -> Seq<(SpecDomain, SpecDoc)>
    decreases s,
{
    if s.len() == 0 {
        Seq::empty()
    } else {
        seq![(s[0].0@, s[0].1@)] + spec_store_of(s.subrange(1, s.len() as int))
    }
}

/// `spec_store_of` maps the sequence entry by entry.
pub broadcast proof fn lemma_store_of_props(s: Seq<(Domain, LoadedPlist)>)
    ensures
        (#[trigger] spec_store_of(s)).len() == s.len(),
        forall|i: int| 0 <= i < s.len() ==> spec_store_of(s)[i] == (s[i].0@, s[i].1@),
    decreases s,
{
    if s.len() > 0 {
        lemma_store_of_props(s.subrange(1, s.len() as int));
        assert forall|i: int| 0 <= i < s.len() implies spec_store_of(s)[i] == (
            s[i].0@,
            s[i].1@,
        ) by {
            if i > 0 {
                assert(s.subrange(1, s.len() as int)[i - 1] == s[i]);
            }
        }
    }
}

/// Index of the entry for domain `d`, if any.
pub open spec fn dom_key_idx(es: Seq<(SpecDomain, SpecDoc)>, d: SpecDomain) -> Option<int>
    decreases es,
{
    if es.len() == 0 {
        None
    } else if es[0].0 == d {
        Some(0int)
    } else {
        match dom_key_idx(es.subrange(1, es.len() as int), d) {
            Some(i) => Some(i + 1),
            None => None,
        }
    }
}

/// The document stored for domain `d`, if any.
pub open spec fn dom_get(es: Seq<(SpecDomain, SpecDoc)>, d: SpecDomain) -> Option<SpecDoc> {
    match dom_key_idx(es, d) {
        Some(i) => Some(es[i].1),
        None => None,
    }
}

/// Whether domain `d` has an entry.
pub open spec fn dom_has(es: Seq<(SpecDomain, SpecDoc)>, d: SpecDomain) -> bool {
    dom_key_idx(es, d) is Some
}

/// The entries after storing `doc` for `d`: an existing domain is
/// replaced in place, a fresh one is appended.
pub open spec fn dom_insert(
    es: Seq<(SpecDomain, SpecDoc)>,
    d: SpecDomain,
    doc: SpecDoc,
) -> Seq<(SpecDomain, SpecDoc)> {
    match dom_key_idx(es, d) {
        Some(i) => es.update(i, (d, doc)),
        None => es.push((d, doc)),
    }
}

/// The entries after dropping domain `d`, if it was present.
pub open spec fn dom_remove(es: Seq<(SpecDomain, SpecDoc)>, d: SpecDomain) -> Seq<
    (SpecDomain, SpecDoc),
>  {
    match dom_key_idx(es, d) {
        Some(i) => es.remove(i),
        None => es,
    }
}

/// What `dom_key_idx` means, index by index.
pub broadcast proof fn lemma_dom_key_idx(es: Seq<(SpecDomain, SpecDoc)>, d: SpecDomain)
    ensures
        match #[trigger] dom_key_idx(es, d) {
            Some(i) => 0 <= i < es.len() && es[i].0 == d && (forall|j: int|
                0 <= j < i ==> es[j].0 != d),
            None => forall|j: int| 0 <= j < es.len() ==> es[j].0 != d,
        },
    decreases es,
{
    if es.len() > 0 && es[0].0 != d {
        let tail = es.subrange(1, es.len() as int);
        lemma_dom_key_idx(tail, d);
        assert(forall|j: int| 0 <= j < tail.len() ==> tail[j] == es[j + 1]);
        assert(forall|j: int| 1 <= j < es.len() ==> #[trigger] es[j] == tail[j - 1]);
    }
}

/// A scan that found `d` first at `i` pins `dom_key_idx` down to `Some(i)`.
pub proof fn lemma_dom_key_idx_from_scan(es: Seq<(SpecDomain, SpecDoc)>, d: SpecDomain, i: int)
    requires
        0 <= i < es.len(),
        es[i].0 == d,
        forall|j: int| 0 <= j < i ==> es[j].0 != d,
    ensures
        dom_key_idx(es, d) == Some(i),
    decreases es,
{
    if i > 0 {
        let tail = es.subrange(1, es.len() as int);
        assert(forall|j: int| 0 <= j < tail.len() ==> tail[j] == es[j + 1]);
        lemma_dom_key_idx_from_scan(tail, d, i - 1);
    }
}

/// A scan that never found `d` pins `dom_key_idx` down to `None`.
pub proof fn lemma_dom_key_idx_from_miss(es: Seq<(SpecDomain, SpecDoc)>, d: SpecDomain)
    requires
        forall|j: int| 0 <= j < es.len() ==> es[j].0 != d,
    ensures
        dom_key_idx(es, d) == None::<int>,
{
    broadcast use lemma_dom_key_idx;

    if dom_key_idx(es, d) is Some {
        let i = dom_key_idx(es, d)->Some_0;
        assert(es[i].0 == d);
        assert(false);
    }
}

/// No domain has two entries.
pub open spec fn store_keys_unique(es: Seq<(SpecDomain, SpecDoc)>) -> bool {
    forall|i: int, j: int| 0 <= i < j < es.len() ==> es[i].0 != es[j].0
}

/// Every stored document is well formed.
pub open spec fn store_docs_wf(es: Seq<(SpecDomain, SpecDoc)>) -> bool {
    forall|i: int| 0 <= i < es.len() ==> spec_doc_wf((#[trigger] es[i]).1)
}

/// The document a domain resolves to: its stored one, or the empty
/// document a domain with no backing file starts from.
pub open spec fn spec_doc_of(es: Seq<(SpecDomain, SpecDoc)>, d: SpecDomain) -> SpecDoc {
    match dom_get(es, d) {
        Some(doc) => doc,
        None => SpecDoc {
            root: SpecValue::Dict(Seq::empty()),
            owner: None,
            is_binary: false,
        },
    }
}

/// The root value a domain resolves to.
pub open spec fn spec_root_of(es: Seq<(SpecDomain, SpecDoc)>, d: SpecDomain) -> SpecValue {
    spec_doc_of(es, d).root
}

/// Provides operations for reading, writing, deleting, and managing the
/// loaded preference domains.
#[derive(Debug)]
pub struct Preferences {
    entries: Vec<(Domain, LoadedPlist)>,
}

impl Preferences {
    /// The store's model: one entry per loaded domain, in load order.
    pub closed spec fn store(&self) -> Seq<(SpecDomain, SpecDoc)> {
        spec_store_of(self.entries@)
    }

    /// The store's invariant: one entry per domain, documents well formed.
    pub closed spec fn wf(&self) -> bool {
        store_keys_unique(self.store()) && store_docs_wf(self.store())
    }

    /// An empty store: no domain loaded.
    pub fn new() -> (r: Preferences)
        ensures
            r.wf(),
            r.store() == Seq::<(SpecDomain, SpecDoc)>::empty(),
    {
        let entries: Vec<(Domain, LoadedPlist)> = Vec::new();
        proof {
            assert(spec_store_of(entries@) =~= Seq::<(SpecDomain, SpecDoc)>::empty());
        }
        Preferences { entries }
    }

    /// Index of the entry for `domain`, scanning the entry list.
    fn find_domain(&self, domain: &Domain) -> (r: Option<usize>)
        ensures
            match r {
                Some(i) => dom_key_idx(self.store(), domain@) == Some(i as int) && i
                    < self.entries@.len(),
                None => dom_key_idx(self.store(), domain@) == None::<int>,
            },
    {
        broadcast use lemma_store_of_props;

        let ghost es = self.store();
        let n = self.entries.len();
        for i in 0..n
            invariant
                n == self.entries.len(),
                es == self.store(),
                es.len() == n,
                forall|j: int| 0 <= j < i ==> es[j].0 != domain@,
            decreases n - i,
        {
            proof {
                lemma_store_of_props(self.entries@);
            }
            if self.entries[i].0.same_as(domain) {
                proof {
                    lemma_dom_key_idx_from_scan(es, domain@, i as int);
                }
                return Some(i);
            }
        }
        proof {
            lemma_dom_key_idx_from_miss(es, domain@);
        }
        None
    }

    /// Put the document loaded for `domain` into the store, replacing any
    /// entry the domain already had.
    pub fn attach_domain(&mut self, domain: Domain, doc: LoadedPlist)
        requires
            old(self).wf(),
            spec_doc_wf(doc@),
        ensures
            final(self).wf(),
            final(self).store() == dom_insert(old(self).store(), domain@, doc@),
    {
        broadcast use lemma_store_of_props, lemma_dom_key_idx;

        let ghost es = self.store();
        match self.find_domain(&domain) {
            Some(i) => {
                self.entries.remove(i);
                self.entries.insert(i, (domain, doc));
                proof {
                    assert(spec_store_of(self.entries@) =~= es.update(i as int, (domain@, doc@)));
                }
            },
            None => {
                self.entries.push((domain, doc));
                proof {
                    assert(spec_store_of(self.entries@) =~= es.push((domain@, doc@)));
                }
            },
        }
    }

    /// Borrow the document stored for `domain`, if any: what a save step
    /// persists after a mutation.
    pub fn document_of<'a>(&'a self, domain: &Domain) -> (r: Option<&'a LoadedPlist>)
        ensures
            match r {
                Some(doc) => dom_get(self.store(), domain@) == Some(doc@),
                None => dom_get(self.store(), domain@) == None::<SpecDoc>,
            },
    {
        broadcast use lemma_store_of_props;

        match self.find_domain(domain) {
            Some(i) => Some(&self.entries[i].1),
            None => None,
        }
    }

    /// Read the value under `key` in `domain`.  A domain with no entry
    /// reads as empty, so the result is `KeyNotFound`; `InvalidType`
    /// exactly when the domain's root is not a dictionary.
    pub fn read(&self, domain: &Domain, key: &str) -> (r: Result<PrefValue, PrefError>)
        ensures
            spec_root_of(self.store(), domain@) is Dict ==> (match dict_get(
                spec_root_of(self.store(), domain@)->Dict_0,
                key@,
            ) {
                Some(v) => r matches Ok(rv) && rv@ == v,
                None => r matches Err(e) && e is KeyNotFound,
            }),
            !(spec_root_of(self.store(), domain@) is Dict) ==> (r matches Err(e)
                && e is InvalidType),
    {
        broadcast use lemma_store_of_props;

        match self.document_of(domain) {
            Some(doc) => doc.read_key(key),
            None => Err(PrefError::KeyNotFound),
        }
    }

    /// Read a whole domain.  A domain with no entry reads as an empty
    /// dictionary rather than an error; a domain whose root is not a
    /// dictionary is an `InvalidType` error.
    pub fn read_domain(&self, domain: &Domain) -> (r: Result<PrefValue, PrefError>)
        ensures
            spec_root_of(self.store(), domain@) is Dict ==> (r matches Ok(v) && v@ == spec_root_of(
                self.store(),
                domain@,
            )),
            !(spec_root_of(self.store(), domain@) is Dict) ==> (r matches Err(e)
                && e is InvalidType),
    {
        match self.document_of(domain) {
            Some(doc) => match &doc.plist {
                PrefValue::Dictionary(_) => Ok(doc.plist.deep_clone()),
                _ => Err(PrefError::InvalidType),
            },
            None => {
                let empty = LoadedPlist::empty();
                Ok(empty.plist)
            },
        }
    }

    /// The type tag of the value under `key` in `domain`: errors exactly
    /// as `read` does.
    pub fn read_type(&self, domain: &Domain, key: &str) -> (r: Result<String, PrefError>)
        ensures
            spec_root_of(self.store(), domain@) is Dict ==> (match dict_get(
                spec_root_of(self.store(), domain@)->Dict_0,
                key@,
            ) {
                Some(v) => r matches Ok(t) && t@ == v.type_tag(),
                None => r matches Err(e) && e is KeyNotFound,
            }),
            !(spec_root_of(self.store(), domain@) is Dict) ==> (r matches Err(e)
                && e is InvalidType),
    {
        match self.read(domain, key) {
            Ok(v) => Ok(v.get_type().to_owned()),
            Err(e) => Err(e),
        }
    }

    /// Store `value` under `key` in `domain`, creating the domain if it
    /// has no entry and overwriting the key if it has one.  Fails with
    /// `InvalidType` exactly when the domain's root is not a dictionary,
    /// and then changes nothing.
    pub fn write(&mut self, domain: &Domain, key: &str, value: PrefValue) -> (r: Result<
        (),
        PrefError,
    >)
        requires
            old(self).wf(),
            crate::values::spec_value_wf(value@),
        ensures
            final(self).wf(),
            spec_root_of(old(self).store(), domain@) is Dict ==> r is Ok && final(self).store()
                == dom_insert(
                old(self).store(),
                domain@,
                SpecDoc {
                    root: SpecValue::Dict(
                        dict_insert(
                            spec_root_of(old(self).store(), domain@)->Dict_0,
                            key@,
                            value@,
                        ),
                    ),
                    owner: spec_doc_of(old(self).store(), domain@).owner,
                    is_binary: spec_doc_of(old(self).store(), domain@).is_binary,
                },
            ),
            !(spec_root_of(old(self).store(), domain@) is Dict) ==> (r matches Err(e)
                && e is InvalidType) && final(self).store() == old(self).store(),
    {
        broadcast use lemma_store_of_props, lemma_dom_key_idx;

        let ghost es = self.store();
        match self.find_domain(domain) {
            Some(i) => {
                let mut pair = self.entries.remove(i);
                let res = pair.1.write_key(key, value);
                let ghost new_doc = pair.1@;
                self.entries.insert(i, pair);
                proof {
                    assert(spec_store_of(self.entries@) =~= es.update(
                        i as int,
                        (es[i as int].0, new_doc),
                    ));
                }
                match res {
                    Ok(()) => {
                        proof {
                            assert(final(self).store() =~= dom_insert(
                                es,
                                domain@,
                                final(self).store()[i as int].1,
                            ));
                        }
                        Ok(())
                    },
                    Err(e) => {
                        proof {
                            assert(final(self).store() =~= es);
                        }
                        Err(e)
                    },
                }
            },
            None => {
                let mut doc = LoadedPlist::empty();
                let res = doc.write_key(key, value);
                proof {
                    assert(res is Ok);
                }
                let d = domain.deep_clone();
                self.entries.push((d, doc));
                proof {
                    assert(spec_store_of(self.entries@) =~= es.push(
                        (domain@, final(self).store().last().1),
                    ));
                    assert(crate::dict::dict_key_idx(
                        Seq::<(Seq<char>, SpecValue)>::empty(),
                        key@,
                    ) is None);
                }
                Ok(())
            },
        }
    }

    /// Remove `key` from `domain`.  `KeyNotFound` exactly when the key —
    /// or the whole domain — is absent; `InvalidType` exactly when the
    /// domain's root is not a dictionary.  Errors change nothing.
    pub fn delete(&mut self, domain: &Domain, key: &str) -> (r: Result<(), PrefError>)
        requires
            old(self).wf(),
        ensures
            final(self).wf(),
            spec_root_of(old(self).store(), domain@) is Dict && dict_has(
                spec_root_of(old(self).store(), domain@)->Dict_0,
                key@,
            ) ==> r is Ok && final(self).store() == dom_insert(
                old(self).store(),
                domain@,
                SpecDoc {
                    root: SpecValue::Dict(
                        dict_remove(spec_root_of(old(self).store(), domain@)->Dict_0, key@),
                    ),
                    owner: spec_doc_of(old(self).store(), domain@).owner,
                    is_binary: spec_doc_of(old(self).store(), domain@).is_binary,
                },
            ),
            spec_root_of(old(self).store(), domain@) is Dict && !dict_has(
                spec_root_of(old(self).store(), domain@)->Dict_0,
                key@,
            ) ==> (r matches Err(e) && e is KeyNotFound) && final(self).store() == old(
                self,
            ).store(),
            !(spec_root_of(old(self).store(), domain@) is Dict) ==> (r matches Err(e)
                && e is InvalidType) && final(self).store() == old(self).store(),
    {
        broadcast use lemma_store_of_props, lemma_dom_key_idx;

        let ghost es = self.store();
        match self.find_domain(domain) {
            Some(i) => {
                let mut pair = self.entries.remove(i);
                let res = pair.1.delete_key(key);
                let ghost new_doc = pair.1@;
                self.entries.insert(i, pair);
                proof {
                    assert(spec_store_of(self.entries@) =~= es.update(
                        i as int,
                        (es[i as int].0, new_doc),
                    ));
                }
                match res {
                    Ok(()) => {
                        proof {
                            assert(final(self).store() =~= dom_insert(
                                es,
                                domain@,
                                final(self).store()[i as int].1,
                            ));
                        }
                        Ok(())
                    },
                    Err(e) => {
                        proof {
                            assert(final(self).store() =~= es);
                            assert(es.update(i as int, (es[i as int].0, new_doc)) =~= es);
                        }
                        Err(e)
                    },
                }
            },
            None => Err(PrefError::KeyNotFound),
        }
    }

    /// Drop `domain` from the store as a whole.  `KeyNotFound` exactly
    /// when the domain has no entry.
    pub fn delete_domain(&mut self, domain: &Domain) -> (r: Result<(), PrefError>)
        requires
            old(self).wf(),
        ensures
            final(self).wf(),
            dom_has(old(self).store(), domain@) ==> r is Ok && final(self).store() == dom_remove(
                old(self).store(),
                domain@,
            ),
            !dom_has(old(self).store(), domain@) ==> (r matches Err(e) && e is KeyNotFound)
                && final(self).store() == old(self).store(),
    {
        broadcast use lemma_store_of_props, lemma_dom_key_idx;

        let ghost es = self.store();
        match self.find_domain(domain) {
            Some(i) => {
                self.entries.remove(i);
                proof {
                    assert(spec_store_of(self.entries@) =~= es.remove(i as int));
                }
                Ok(())
            },
            None => Err(PrefError::KeyNotFound),
        }
    }

    /// Move the value under `old_key` in `domain` to `new_key`, in one
    /// load-mutate-save of the domain's document: the old binding goes
    /// away and the value lands under the new name, overwriting it if
    /// taken.  `KeyNotFound` exactly when `old_key` — or the whole
    /// domain — is absent.  Errors change nothing.
    pub fn rename(&mut self, domain: &Domain, old_key: &str, new_key: &str) -> (r: Result<
        (),
        PrefError,
    >)
        requires
            old(self).wf(),
        ensures
            final(self).wf(),
            spec_root_of(old(self).store(), domain@) is Dict && dict_has(
                spec_root_of(old(self).store(), domain@)->Dict_0,
                old_key@,
            ) ==> r is Ok && final(self).store() == dom_insert(
                old(self).store(),
                domain@,
                SpecDoc {
                    root: SpecValue::Dict(
                        dict_insert(
                            dict_remove(
                                spec_root_of(old(self).store(), domain@)->Dict_0,
                                old_key@,
                            ),
                            new_key@,
                            dict_get(
                                spec_root_of(old(self).store(), domain@)->Dict_0,
                                old_key@,
                            )->0,
                        ),
                    ),
                    owner: spec_doc_of(old(self).store(), domain@).owner,
                    is_binary: spec_doc_of(old(self).store(), domain@).is_binary,
                },
            ),
            spec_root_of(old(self).store(), domain@) is Dict && !dict_has(
                spec_root_of(old(self).store(), domain@)->Dict_0,
                old_key@,
            ) ==> (r matches Err(e) && e is KeyNotFound) && final(self).store() == old(
                self,
            ).store(),
            !(spec_root_of(old(self).store(), domain@) is Dict) ==> (r matches Err(e)
                && e is InvalidType) && final(self).store() == old(self).store(),
    {
        broadcast use lemma_store_of_props, lemma_dom_key_idx;

        let ghost es = self.store();
        match self.find_domain(domain) {
            Some(i) => {
                let mut pair = self.entries.remove(i);
                let res = pair.1.rename_key(old_key, new_key);
                let ghost new_doc = pair.1@;
                self.entries.insert(i, pair);
                proof {
                    assert(spec_store_of(self.entries@) =~= es.update(
                        i as int,
                        (es[i as int].0, new_doc),
                    ));
                }
                match res {
                    Ok(()) => {
                        proof {
                            assert(final(self).store() =~= dom_insert(
                                es,
                                domain@,
                                final(self).store()[i as int].1,
                            ));
                        }
                        Ok(())
                    },
                    Err(e) => {
                        proof {
                            assert(es.update(i as int, (es[i as int].0, new_doc)) =~= es);
                        }
                        Err(e)
                    },
                }
            },
            None => Err(PrefError::KeyNotFound),
        }
    }
}

/// Result of a read in a batch: a single value, or a whole domain
/// document's root.
#[derive(Debug)]
pub enum ReadResult {
    Value(PrefValue),
    Plist(PrefValue),
}

/// Mathematical model of a `ReadResult`.
pub enum SpecRead {
    Value(SpecValue),
    Plist(SpecValue),
}

impl View for ReadResult {
    type V = SpecRead;

    open spec fn view(&self) -> SpecRead {
        match self {
            ReadResult::Value(v) => SpecRead::Value(v@),
            ReadResult::Plist(v) => SpecRead::Plist(v@),
        }
    }
}

/// The store after one write of `v` under `k` in `d`: the domain is
/// created or updated when its root is a dictionary, and left alone when
/// it is not.
pub open spec fn spec_write1(
    st: Seq<(SpecDomain, SpecDoc)>,
    d: SpecDomain,
    k: Seq<char>,
    v: SpecValue,
) -> Seq<(SpecDomain, SpecDoc)> {
    if spec_root_of(st, d) is Dict {
        dom_insert(
            st,
            d,
            SpecDoc {
                root: SpecValue::Dict(dict_insert(spec_root_of(st, d)->Dict_0, k, v)),
                owner: spec_doc_of(st, d).owner,
                is_binary: spec_doc_of(st, d).is_binary,
            },
        )
    } else {
        st
    }
}

/// The store after a sequence of writes, applied in order.
pub open spec fn spec_apply_writes(
    st: Seq<(SpecDomain, SpecDoc)>,
    b: Seq<(Domain, String, PrefValue)>,
) -> Seq<(SpecDomain, SpecDoc)>
    decreases b,
{
    if b.len() == 0 {
        st
    } else {
        spec_apply_writes(
            spec_write1(st, b[0].0@, b[0].1@, b[0].2@),
            b.subrange(1, b.len() as int),
        )
    }
}

/// Applying one more write continues the fold.
pub proof fn lemma_apply_writes_snoc(
    st: Seq<(SpecDomain, SpecDoc)>,
    b: Seq<(Domain, String, PrefValue)>,
    x: (Domain, String, PrefValue),
)
    ensures
        spec_apply_writes(st, b.push(x)) == spec_write1(
            spec_apply_writes(st, b),
            x.0@,
            x.1@,
            x.2@,
        ),
    decreases b,
{
    if b.len() == 0 {
        assert(b.push(x).subrange(1, b.push(x).len() as int) =~= Seq::<(
            Domain,
            String,
            PrefValue,
        )>::empty());
        assert(b.push(x)[0] == x);
        assert(spec_apply_writes(st, b) == st);
        assert(spec_apply_writes(st, b.push(x)) == spec_apply_writes(
            spec_write1(st, b.push(x)[0].0@, b.push(x)[0].1@, b.push(x)[0].2@),
            b.push(x).subrange(1, b.push(x).len() as int),
        ));
        assert(spec_apply_writes(st, b.push(x)) == spec_write1(st, x.0@, x.1@, x.2@));
    } else {
        assert(b.push(x)[0] == b[0]);
        assert(b.push(x).subrange(1, b.push(x).len() as int) =~= b.subrange(
            1,
            b.len() as int,
        ).push(x));
        lemma_apply_writes_snoc(
            spec_write1(st, b[0].0@, b[0].1@, b[0].2@),
            b.subrange(1, b.len() as int),
            x,
        );
    }
}

/// Whether every write in the batch lands on a dictionary-rooted (or
/// absent) domain.
pub open spec fn spec_writes_ok(
    st: Seq<(SpecDomain, SpecDoc)>,
    b: Seq<(Domain, String, PrefValue)>,
) -> bool {
    forall|i: int| 0 <= i < b.len() ==> spec_root_of(st, (#[trigger] b[i]).0@) is Dict
}

/// A single write leaves every domain's dictionary-rootedness as it was.
pub proof fn lemma_write1_preserves_dictness(
    st: Seq<(SpecDomain, SpecDoc)>,
    d: SpecDomain,
    k: Seq<char>,
    v: SpecValue,
)
    ensures
        forall|d2: SpecDomain|
            (spec_root_of(#[trigger] spec_write1(st, d, k, v), d2) is Dict) == (spec_root_of(
                st,
                d2,
            ) is Dict),
{
    broadcast use lemma_dom_key_idx;

    if spec_root_of(st, d) is Dict {
        let st2 = spec_write1(st, d, k, v);
        assert forall|d2: SpecDomain|
            (spec_root_of(st2, d2) is Dict) == (spec_root_of(st, d2) is Dict) by {
            match dom_key_idx(st, d) {
                Some(i) => {
                    if d2 == d {
                        lemma_dom_key_idx_from_scan(st2, d2, i);
                    } else {
                        match dom_key_idx(st, d2) {
                            Some(i2) => {
                                lemma_dom_key_idx_from_scan(st2, d2, i2);
                            },
                            None => {
                                lemma_dom_key_idx_from_miss(st2, d2);
                            },
                        }
                    }
                },
                None => {
                    if d2 == d {
                        lemma_dom_key_idx_from_scan(st2, d2, st.len() as int);
                    } else {
                        match dom_key_idx(st, d2) {
                            Some(i2) => {
                                lemma_dom_key_idx_from_scan(st2, d2, i2);
                            },
                            None => {
                                lemma_dom_key_idx_from_miss(st2, d2);
                            },
                        }
                    }
                },
            }
        }
    }
}

/// The domains a batch touches, one entry each, in order of first
/// occurrence.
pub open spec fn spec_add_dom(ds: Seq<SpecDomain>, d: SpecDomain) -> Seq<SpecDomain> {
    if ds.contains(d) {
        ds
    } else {
        ds.push(d)
    }
}

/// Fold of `spec_add_dom` over a batch's domains.
pub open spec fn spec_dirty_doms(
    ds: Seq<SpecDomain>,
    b: Seq<(Domain, String, PrefValue)>,
) -> Seq<SpecDomain>
    decreases b,
{
    if b.len() == 0 {
        ds
    } else {
        spec_dirty_doms(spec_add_dom(ds, b[0].0@), b.subrange(1, b.len() as int))
    }
}

/// Folding one more domain continues the fold.
pub proof fn lemma_dirty_doms_snoc(
    ds: Seq<SpecDomain>,
    b: Seq<(Domain, String, PrefValue)>,
    x: (Domain, String, PrefValue),
)
    ensures
        spec_dirty_doms(ds, b.push(x)) == spec_add_dom(spec_dirty_doms(ds, b), x.0@),
    decreases b,
{
    if b.len() == 0 {
        assert(b.push(x).subrange(1, b.push(x).len() as int) =~= Seq::<(
            Domain,
            String,
            PrefValue,
        )>::empty());
        assert(b.push(x)[0] == x);
        assert(spec_dirty_doms(ds, b) == ds);
        assert(spec_dirty_doms(ds, b.push(x)) == spec_dirty_doms(
            spec_add_dom(ds, b.push(x)[0].0@),
            b.push(x).subrange(1, b.push(x).len() as int),
        ));
        assert(spec_dirty_doms(ds, b.push(x)) == spec_add_dom(ds, x.0@));
    } else {
        assert(b.push(x)[0] == b[0]);
        assert(b.push(x).subrange(1, b.push(x).len() as int) =~= b.subrange(
            1,
            b.len() as int,
        ).push(x));
        lemma_dirty_doms_snoc(spec_add_dom(ds, b[0].0@), b.subrange(1, b.len() as int), x);
    }
}

/// The dirty-domain fold never lists a domain twice, and lists exactly
/// the domains of the batch and what it started from.
pub proof fn lemma_dirty_doms_props(ds: Seq<SpecDomain>, b: Seq<(Domain, String, PrefValue)>)
    requires
        forall|i: int, j: int| 0 <= i < j < ds.len() ==> ds[i] != ds[j],
    ensures
        forall|i: int, j: int|
            0 <= i < j < spec_dirty_doms(ds, b).len() ==> spec_dirty_doms(ds, b)[i]
                != spec_dirty_doms(ds, b)[j],
        forall|d: SpecDomain|
            spec_dirty_doms(ds, b).contains(d) <==> (ds.contains(d) || exists|i: int|
                0 <= i < b.len() && (#[trigger] b[i]).0@ == d),
    decreases b,
{
    if b.len() > 0 {
        let ds2 = spec_add_dom(ds, b[0].0@);
        let tail = b.subrange(1, b.len() as int);
        if !ds.contains(b[0].0@) {
            assert forall|i: int, j: int| 0 <= i < j < ds2.len() implies ds2[i] != ds2[j] by {
                if j == ds.len() as int {
                    assert(ds2[j] == b[0].0@);
                    assert(ds.contains(ds[i]));
                }
            }
        }
        assert(forall|d: SpecDomain|
            ds2.contains(d) <==> (ds.contains(d) || b[0].0@ == d)) by {
            assert forall|d: SpecDomain| ds2.contains(d) implies (ds.contains(d) || b[0].0@
                == d) by {
                if !ds.contains(b[0].0@) {
                    let i = choose|i: int| 0 <= i < ds2.len() && ds2[i] == d;
                    if i < ds.len() {
                        assert(ds.contains(d));
                    }
                }
            }
            assert forall|d: SpecDomain| (ds.contains(d) || b[0].0@ == d) implies ds2.contains(
                d,
            ) by {
                if ds.contains(d) {
                    let i = choose|i: int| 0 <= i < ds.len() && ds[i] == d;
                    assert(ds2[i] == d);
                } else {
                    if !ds.contains(b[0].0@) {
                        assert(ds2[ds.len() as int] == d);
                    }
                }
            }
        }
        lemma_dirty_doms_props(ds2, tail);
        assert forall|d: SpecDomain|
            spec_dirty_doms(ds, b).contains(d) implies (ds.contains(d) || exists|i: int|
            0 <= i < b.len() && (#[trigger] b[i]).0@ == d) by {
            if !ds.contains(d) {
                if ds2.contains(d) {
                    assert(b[0].0@ == d);
                } else {
                    let i = choose|i: int| 0 <= i < tail.len() && (#[trigger] tail[i]).0@ == d;
                    assert(b[i + 1].0@ == d);
                }
            }
        }
        assert forall|d: SpecDomain|
            (ds.contains(d) || exists|i: int| 0 <= i < b.len() && (#[trigger] b[i]).0@ == d)
            implies spec_dirty_doms(ds, b).contains(d) by {
            if !ds.contains(d) {
                let i = choose|i: int| 0 <= i < b.len() && (#[trigger] b[i]).0@ == d;
                if i == 0 {
                    assert(ds2.contains(d) || b[0].0@ == d);
                } else {
                    assert(tail[i - 1].0@ == d);
                }
            }
        }
    }
}

/// Model of a list of domains, element by element.
pub open spec fn spec_doms_of(s: Seq<Domain>) -> Seq<SpecDomain>
    decreases s,
{
    if s.len() == 0 {
        Seq::empty()
    } else {
        seq![s[0]@] + spec_doms_of(s.subrange(1, s.len() as int))
    }
}

/// `spec_doms_of` maps the sequence element by element.
pub broadcast proof fn lemma_doms_of_props(s: Seq<Domain>)
    ensures
        (#[trigger] spec_doms_of(s)).len() == s.len(),
        forall|i: int| 0 <= i < s.len() ==> spec_doms_of(s)[i] == s[i]@,
    decreases s,
{
    if s.len() > 0 {
        lemma_doms_of_props(s.subrange(1, s.len() as int));
        assert forall|i: int| 0 <= i < s.len() implies spec_doms_of(s)[i] == s[i]@ by {
            if i > 0 {
                assert(s.subrange(1, s.len() as int)[i - 1] == s[i]);
            }
        }
    }
}

impl Preferences {
    /// Whether `domain` resolves to a dictionary root (a missing domain
    /// does: it reads as empty).
    fn root_is_dict(&self, domain: &Domain) -> (r: bool)
        ensures
            r == (spec_root_of(self.store(), domain@) is Dict),
    {
        match self.document_of(domain) {
            Some(doc) => match &doc.plist {
                PrefValue::Dictionary(_) => true,
                _ => false,
            },
            None => true,
        }
    }

    /// Write a batch of key/value settings, grouped by domain: the store
    /// takes every write, applied in batch order, and the result lists
    /// each touched domain exactly once, in order of first occurrence —
    /// the domains whose documents the caller persists, one save each.
    /// If any write addresses a domain whose root is not a dictionary,
    /// nothing is applied and the batch fails as a unit.
    pub fn write_batch(&mut self, batch: Vec<(Domain, String, PrefValue)>) -> (r: Result<
        Vec<Domain>,
        PrefError,
    >)
        requires
            old(self).wf(),
            forall|i: int|
                0 <= i < batch@.len() ==> crate::values::spec_value_wf(
                    (#[trigger] batch@[i]).2@,
                ),
        ensures
            final(self).wf(),
            spec_writes_ok(old(self).store(), batch@) ==> (r matches Ok(dirty)
                && final(self).store() == spec_apply_writes(old(self).store(), batch@)
                && spec_doms_of(dirty@) == spec_dirty_doms(Seq::empty(), batch@)),
            !spec_writes_ok(old(self).store(), batch@) ==> (r matches Err(e) && e is InvalidType)
                && final(self).store() == old(self).store(),
    {
        broadcast use lemma_doms_of_props;

        let ghost st0 = self.store();
        let n = batch.len();
        for i in 0..n
            invariant
                n == batch.len(),
                self.store() == st0,
                self.wf(),
                forall|j: int| 0 <= j < i ==> spec_root_of(st0, (#[trigger] batch@[j]).0@) is Dict,
            decreases n - i,
        {
            if !self.root_is_dict(&batch[i].0) {
                return Err(PrefError::InvalidType);
            }
        }
        let mut dirty: Vec<Domain> = Vec::new();
        proof {
            assert(spec_doms_of(dirty@) =~= Seq::<SpecDomain>::empty());
        }
        for i in 0..n
            invariant
                n == batch.len(),
                self.wf(),
                forall|j: int| 0 <= j < n ==> spec_root_of(st0, (#[trigger] batch@[j]).0@) is Dict,
                forall|j: int|
                    0 <= j < n ==> crate::values::spec_value_wf((#[trigger] batch@[j]).2@),
                self.store() == spec_apply_writes(st0, batch@.subrange(0, i as int)),
                forall|d2: SpecDomain|
                    (spec_root_of(self.store(), d2) is Dict) == (spec_root_of(st0, d2) is Dict),
                spec_doms_of(dirty@) == spec_dirty_doms(
                    Seq::empty(),
                    batch@.subrange(0, i as int),
                ),
            decreases n - i,
        {
            let ghost prefix = batch@.subrange(0, i as int);
            let ghost st_before = self.store();
            let entry = &batch[i];
            let value = entry.2.deep_clone();
            let res = self.write(&entry.0, entry.1.as_str(), value);
            proof {
                assert(res is Ok);
                assert(batch@.subrange(0, i + 1) =~= prefix.push(batch@[i as int]));
                lemma_apply_writes_snoc(st0, prefix, batch@[i as int]);
                assert(self.store() == spec_write1(
                    st_before,
                    batch@[i as int].0@,
                    batch@[i as int].1@,
                    batch@[i as int].2@,
                ));
                lemma_write1_preserves_dictness(
                    st_before,
                    batch@[i as int].0@,
                    batch@[i as int].1@,
                    batch@[i as int].2@,
                );
            }
            let mut seen = false;
            let ghost dirty0 = dirty@;
            let m = dirty.len();
            proof {
                lemma_doms_of_props(dirty@);
            }
            for j in 0..m
                invariant
                    m == dirty.len(),
                    dirty@ == dirty0,
                    spec_doms_of(dirty@).len() == m,
                    seen ==> spec_doms_of(dirty@).contains(entry.0@),
                    !seen ==> forall|t: int| 0 <= t < j ==> spec_doms_of(dirty@)[t] != entry.0@,
                decreases m - j,
            {
                proof {
                    lemma_doms_of_props(dirty@);
                }
                if dirty[j].same_as(&entry.0) {
                    proof {
                        assert(spec_doms_of(dirty@)[j as int] == entry.0@);
                        assert(spec_doms_of(dirty@).contains(entry.0@));
                    }
                    seen = true;
                }
            }
            proof {
                lemma_doms_of_props(dirty@);
                if seen {
                } else {
                    assert(!spec_doms_of(dirty@).contains(entry.0@));
                }
                lemma_dirty_doms_snoc(Seq::empty(), prefix, batch@[i as int]);
            }
            if !seen {
                dirty.push(entry.0.deep_clone());
                proof {
                    lemma_doms_of_props(dirty@);
                    lemma_doms_of_props(dirty0);
                    assert(spec_doms_of(dirty@) =~= spec_doms_of(dirty0).push(entry.0@));
                }
            }
        }
        proof {
            assert(batch@.subrange(0, n as int) =~= batch@);
        }
        Ok(dirty)
    }
}


/// After an insert, domain `d` holds `doc`.
pub proof fn lemma_dom_insert_get(es: Seq<(SpecDomain, SpecDoc)>, d: SpecDomain, doc: SpecDoc)
    ensures
        dom_get(dom_insert(es, d, doc), d) == Some(doc),
{
    broadcast use lemma_dom_key_idx;

    match dom_key_idx(es, d) {
        Some(i) => {
            lemma_dom_key_idx_from_scan(es.update(i, (d, doc)), d, i);
        },
        None => {
            lemma_dom_key_idx_from_scan(es.push((d, doc)), d, es.len() as int);
        },
    }
}

/// An insert for `d` leaves every other domain's entry alone.
pub proof fn lemma_dom_insert_other(
    es: Seq<(SpecDomain, SpecDoc)>,
    d: SpecDomain,
    doc: SpecDoc,
    d2: SpecDomain,
)
    requires
        d2 != d,
    ensures
        dom_get(dom_insert(es, d, doc), d2) == dom_get(es, d2),
{
    broadcast use lemma_dom_key_idx;

    let es2 = dom_insert(es, d, doc);
    match dom_key_idx(es, d2) {
        Some(i2) => {
            assert(es2[i2].0 == d2);
            lemma_dom_key_idx_from_scan(es2, d2, i2);
        },
        None => {
            lemma_dom_key_idx_from_miss(es2, d2);
        },
    }
}

/// Writing the same key and value twice leaves the store exactly as one
/// write does: a second identical write is invisible.
pub proof fn lemma_write_idempotent(
    st: Seq<(SpecDomain, SpecDoc)>,
    d: SpecDomain,
    k: Seq<char>,
    v: SpecValue,
)
    ensures
        spec_write1(spec_write1(st, d, k, v), d, k, v) == spec_write1(st, d, k, v),
{
    broadcast use lemma_dom_key_idx;

    if spec_root_of(st, d) is Dict {
        let es = spec_root_of(st, d)->Dict_0;
        let doc1 = SpecDoc {
            root: SpecValue::Dict(crate::dict::dict_insert(es, k, v)),
            owner: spec_doc_of(st, d).owner,
            is_binary: spec_doc_of(st, d).is_binary,
        };
        let st1 = spec_write1(st, d, k, v);
        lemma_dom_insert_get(st, d, doc1);
        assert(spec_doc_of(st1, d) == doc1);
        crate::dict::lemma_insert_idempotent(es, k, v);
        let doc2 = SpecDoc {
            root: SpecValue::Dict(
                crate::dict::dict_insert(crate::dict::dict_insert(es, k, v), k, v),
            ),
            owner: doc1.owner,
            is_binary: doc1.is_binary,
        };
        assert(doc2 == doc1);
        match dom_key_idx(st1, d) {
            Some(i) => {
                assert(st1[i] == (d, doc1));
                assert(spec_write1(st1, d, k, v) =~= st1);
            },
            None => {
                assert(dom_get(st1, d) is Some);
                assert(false);
            },
        }
    }
}

/// Model of an optional key.
pub open spec fn opt_str_view(o: Option<String>) -> Option<Seq<char>> {
    match o {
        Some(s) => Some(s@),
        None => None,
    }
}

/// Whether one batched read resolves: a whole-domain read always does,
/// a keyed read needs a dictionary root holding the key.
pub open spec fn spec_read1_ok(
    st: Seq<(SpecDomain, SpecDoc)>,
    d: SpecDomain,
    k: Option<Seq<char>>,
) -> bool {
    match k {
        None => true,
        Some(kk) => spec_root_of(st, d) is Dict && dict_has(spec_root_of(st, d)->Dict_0, kk),
    }
}

/// What one batched read returns when it resolves.
pub open spec fn spec_read1_val(
    st: Seq<(SpecDomain, SpecDoc)>,
    d: SpecDomain,
    k: Option<Seq<char>>,
) -> SpecRead {
    match k {
        None => SpecRead::Plist(spec_root_of(st, d)),
        Some(kk) => SpecRead::Value(dict_get(spec_root_of(st, d)->Dict_0, kk)->0),
    }
}

/// The error a keyed access reports when it does not resolve.
pub open spec fn spec_access_err(st: Seq<(SpecDomain, SpecDoc)>, d: SpecDomain) -> PrefError {
    if spec_root_of(st, d) is Dict {
        PrefError::KeyNotFound
    } else {
        PrefError::InvalidType
    }
}

/// The store after one batched deletion, when it resolves: a `None` key
/// drops the whole domain (quietly, even an absent one), a keyed entry
/// must find its key in a dictionary root.
pub open spec fn spec_delete1(
    st: Seq<(SpecDomain, SpecDoc)>,
    d: SpecDomain,
    k: Option<Seq<char>>,
) -> Option<Seq<(SpecDomain, SpecDoc)>> {
    match k {
        None => Some(dom_remove(st, d)),
        Some(kk) => if spec_root_of(st, d) is Dict && dict_has(
            spec_root_of(st, d)->Dict_0,
            kk,
        ) {
            Some(
                dom_insert(
                    st,
                    d,
                    SpecDoc {
                        root: SpecValue::Dict(dict_remove(spec_root_of(st, d)->Dict_0, kk)),
                        owner: spec_doc_of(st, d).owner,
                        is_binary: spec_doc_of(st, d).is_binary,
                    },
                ),
            )
        } else {
            None
        },
    }
}

/// The store after a sequence of deletions, applied in order; `None` as
/// soon as one of them does not resolve.
pub open spec fn spec_apply_deletes(
    st: Seq<(SpecDomain, SpecDoc)>,
    b: Seq<(Domain, Option<String>)>,
) -> Option<Seq<(SpecDomain, SpecDoc)>>
    decreases b,
{
    if b.len() == 0 {
        Some(st)
    } else {
        match spec_delete1(st, b[0].0@, opt_str_view(b[0].1)) {
            Some(st2) => spec_apply_deletes(st2, b.subrange(1, b.len() as int)),
            None => None,
        }
    }
}

/// Applying one more deletion continues the fold.
pub proof fn lemma_apply_deletes_snoc(
    st: Seq<(SpecDomain, SpecDoc)>,
    b: Seq<(Domain, Option<String>)>,
    x: (Domain, Option<String>),
)
    ensures
        spec_apply_deletes(st, b.push(x)) == (match spec_apply_deletes(st, b) {
            Some(st2) => spec_delete1(st2, x.0@, opt_str_view(x.1)),
            None => None,
        }),
    decreases b,
{
    if b.len() == 0 {
        assert(b.push(x).subrange(1, b.push(x).len() as int) =~= Seq::<(
            Domain,
            Option<String>,
        )>::empty());
        assert(b.push(x)[0] == x);
        assert(spec_apply_deletes(st, b) == Some(st));
        match spec_delete1(st, x.0@, opt_str_view(x.1)) {
            Some(st2) => {
                assert(spec_apply_deletes(st, b.push(x)) == spec_apply_deletes(
                    st2,
                    b.push(x).subrange(1, b.push(x).len() as int),
                ));
            },
            None => {},
        }
    } else {
        assert(b.push(x)[0] == b[0]);
        assert(b.push(x).subrange(1, b.push(x).len() as int) =~= b.subrange(
            1,
            b.len() as int,
        ).push(x));
        match spec_delete1(st, b[0].0@, opt_str_view(b[0].1)) {
            Some(st2) => {
                lemma_apply_deletes_snoc(st2, b.subrange(1, b.len() as int), x);
            },
            None => {},
        }
    }
}

/// Whether the `i`-th deletion is the one that fails, with the earlier
/// ones applied.
pub open spec fn spec_delete_fails_at(
    st: Seq<(SpecDomain, SpecDoc)>,
    b: Seq<(Domain, Option<String>)>,
    i: int,
) -> bool {
    spec_apply_deletes(st, b.subrange(0, i)) matches Some(stv) && spec_delete1(
        stv,
        b[i].0@,
        opt_str_view(b[i].1),
    ) is None
}

/// The error the `i`-th deletion reports when it fails.
pub open spec fn spec_delete_fail_err(
    st: Seq<(SpecDomain, SpecDoc)>,
    b: Seq<(Domain, Option<String>)>,
    i: int,
) -> PrefError {
    spec_access_err(spec_apply_deletes(st, b.subrange(0, i))->0, b[i].0@)
}

impl Preferences {
    /// A structural copy of the store.
    fn clone_entries(&self) -> (r: Vec<(Domain, LoadedPlist)>)
        ensures
            spec_store_of(r@) == self.store(),
    {
        broadcast use lemma_store_of_props;

        let mut out: Vec<(Domain, LoadedPlist)> = Vec::new();
        let n = self.entries.len();
        for i in 0..n
            invariant
                n == self.entries.len(),
                out.len() == i,
                forall|j: int|
                    0 <= j < i ==> (#[trigger] out@[j]).0@ == self.entries@[j].0@ && out@[j].1@
                        == self.entries@[j].1@,
            decreases n - i,
        {
            let pair = &self.entries[i];
            out.push((pair.0.deep_clone(), pair.1.deep_clone()));
        }
        proof {
            lemma_store_of_props(out@);
            lemma_store_of_props(self.entries@);
            assert(spec_store_of(out@) =~= spec_store_of(self.entries@));
        }
        out
    }

    /// Read a batch of entries.  Each entry resolves against the store as
    /// `read` (with a key) or as a whole-domain read (without one), and
    /// the results come back in batch order.  The first entry that does
    /// not resolve fails the whole batch with its own error.
    pub fn read_batch(&self, batch: Vec<(Domain, Option<String>)>) -> (r: Result<
        Vec<(Domain, Option<String>, ReadResult)>,
        PrefError,
    >)
        ensures
            (forall|i: int|
                0 <= i < batch@.len() ==> spec_read1_ok(
                    self.store(),
                    (#[trigger] batch@[i]).0@,
                    opt_str_view(batch@[i].1),
                )) ==> (r matches Ok(out) && out@.len() == batch@.len() && (forall|i: int|
                0 <= i < batch@.len() ==> (#[trigger] out@[i]).0@ == batch@[i].0@ && opt_str_view(
                    out@[i].1,
                ) == opt_str_view(batch@[i].1) && out@[i].2@ == spec_read1_val(
                    self.store(),
                    batch@[i].0@,
                    opt_str_view(batch@[i].1),
                ))),
            !(forall|i: int|
                0 <= i < batch@.len() ==> spec_read1_ok(
                    self.store(),
                    (#[trigger] batch@[i]).0@,
                    opt_str_view(batch@[i].1),
                )) ==> (r matches Err(e) && exists|i: int|
                0 <= i < batch@.len() && !spec_read1_ok(
                    self.store(),
                    (#[trigger] batch@[i]).0@,
                    opt_str_view(batch@[i].1),
                ) && e == spec_access_err(self.store(), batch@[i].0@)),
    {
        let mut out: Vec<(Domain, Option<String>, ReadResult)> = Vec::new();
        let n = batch.len();
        for i in 0..n
            invariant
                n == batch.len(),
                out.len() == i,
                forall|j: int|
                    0 <= j < i ==> spec_read1_ok(
                        self.store(),
                        (#[trigger] batch@[j]).0@,
                        opt_str_view(batch@[j].1),
                    ),
                forall|j: int|
                    0 <= j < i ==> (#[trigger] out@[j]).0@ == batch@[j].0@ && opt_str_view(
                        out@[j].1,
                    ) == opt_str_view(batch@[j].1) && out@[j].2@ == spec_read1_val(
                        self.store(),
                        batch@[j].0@,
                        opt_str_view(batch@[j].1),
                    ),
            decreases n - i,
        {
            let entry = &batch[i];
            match &entry.1 {
                None => {
                    let root = match self.document_of(&entry.0) {
                        Some(doc) => doc.plist.deep_clone(),
                        None => LoadedPlist::empty().plist,
                    };
                    out.push((entry.0.deep_clone(), None, ReadResult::Plist(root)));
                },
                Some(key) => match self.read(&entry.0, key.as_str()) {
                    Ok(v) => {
                        out.push((
                            entry.0.deep_clone(),
                            Some(key.clone()),
                            ReadResult::Value(v),
                        ));
                    },
                    Err(e) => {
                        return Err(e);
                    },
                },
            }
        }
        Ok(out)
    }

    /// Delete a batch of entries, as a unit: every deletion is checked
    /// against the store with the earlier ones applied, and the store
    /// changes only if all of them resolve.  An entry without a key drops
    /// its whole domain, quietly even when the domain is absent; an entry
    /// with a key fails as `delete` does.
    pub fn delete_batch(&mut self, batch: Vec<(Domain, Option<String>)>) -> (r: Result<
        (),
        PrefError,
    >)
        requires
            old(self).wf(),
        ensures
            final(self).wf(),
            spec_apply_deletes(old(self).store(), batch@) matches Some(st2) ==> r is Ok
                && final(self).store() == st2,
            spec_apply_deletes(old(self).store(), batch@) is None ==> (r matches Err(e)
                && final(self).store() == old(self).store() && exists|i: int|
                #![trigger batch@[i]]
                0 <= i < batch@.len() && spec_delete_fails_at(old(self).store(), batch@, i) && e
                    == spec_delete_fail_err(old(self).store(), batch@, i)),
    {
        let ghost st0 = self.store();
        let mut work = Preferences { entries: self.clone_entries() };
        proof {
            assert(work.store() == st0);
            assert(batch@.subrange(0, 0) =~= Seq::<(Domain, Option<String>)>::empty());
        }
        let n = batch.len();
        for i in 0..n
            invariant
                n == batch.len(),
                self.store() == st0,
                self.wf(),
                work.wf(),
                spec_apply_deletes(st0, batch@.subrange(0, i as int)) == Some(work.store()),
            decreases n - i,
        {
            let ghost prefix = batch@.subrange(0, i as int);
            let ghost st_before = work.store();
            let entry = &batch[i];
            match &entry.1 {
                None => {
                    let res = work.delete_domain(&entry.0);
                    proof {
                        assert(work.store() == dom_remove(st_before, entry.0@));
                    }
                },
                Some(key) => match work.delete(&entry.0, key.as_str()) {
                    Ok(()) => {},
                    Err(e) => {
                        proof {
                            assert(batch@.subrange(0, i as int) == prefix);
                            assert(spec_delete1(
                                st_before,
                                batch@[i as int].0@,
                                opt_str_view(batch@[i as int].1),
                            ) is None);
                            lemma_apply_deletes_prefix_none(st0, batch@, i as int);
                        }
                        return Err(e);
                    },
                },
            }
            proof {
                assert(batch@.subrange(0, i + 1) =~= prefix.push(batch@[i as int]));
                lemma_apply_deletes_snoc(st0, prefix, batch@[i as int]);
            }
        }
        proof {
            assert(batch@.subrange(0, n as int) =~= batch@);
        }
        self.entries = work.entries;
        Ok(())
    }
}

/// The search results over a store: one entry per domain with matches,
/// in store order, under the domain's display name.
pub open spec fn spec_find_all(st: Seq<(SpecDomain, SpecDoc)>, word: Seq<char>) -> Seq<
    (Seq<char>, Seq<(Seq<char>, Seq<char>)>),
>
    decreases st,
{
    if st.len() == 0 {
        Seq::empty()
    } else {
        let ms = crate::find::spec_find_in(st[0].1.root, word, Seq::empty());
        (if ms.len() > 0 {
            seq![(crate::domain::spec_display_name(st[0].0), ms)]
        } else {
            Seq::empty()
        }) + spec_find_all(st.subrange(1, st.len() as int), word)
    }
}

/// Model of a list of per-domain search results.
pub open spec fn results_view(s: Seq<(String, Vec<crate::find::FindMatch>)>) -> Seq<
    (Seq<char>, Seq<(Seq<char>, Seq<char>)>),
>
    decreases s,
{
    if s.len() == 0 {
        Seq::empty()
    } else {
        seq![(s[0].0@, crate::find::matches_view(s[0].1@))] + results_view(
            s.subrange(1, s.len() as int),
        )
    }
}

/// The sentinel file name the global domain is stored under.
pub open spec fn spec_global_file() -> Seq<char> {
    ".GlobalPreferences.plist"@
}

/// The domain names a directory listing yields: the global sentinel file
/// under its display name, every other visible `.plist` file under its
/// stem, nothing else.
pub open spec fn spec_domain_names(names: Seq<Seq<char>>) -> Seq<Seq<char>>
    decreases names,
{
    if names.len() == 0 {
        Seq::empty()
    } else {
        let n = names[0];
        (if n == spec_global_file() {
            seq!["NSGlobalDomain"@]
        } else if crate::text::spec_ends_with(n, ".plist"@) && !(n.len() > 0 && n[0] == '.') {
            seq![n.subrange(0, n.len() - ".plist"@.len())]
        } else {
            Seq::<Seq<char>>::empty()
        }) + spec_domain_names(names.subrange(1, names.len() as int))
    }
}

impl Preferences {
    /// Search every loaded domain for keys or rendered values containing
    /// the given word, case-insensitively.  The result lists each domain
    /// with at least one match, in store order, under its display name.
    pub fn find(&self, word: &str) -> (r: Vec<(String, Vec<crate::find::FindMatch>)>)
        ensures
            results_view(r@) == spec_find_all(self.store(), crate::text::lower_of(word@)),
    {
        broadcast use lemma_store_of_props;

        let word_lower = crate::text::lowercase(word);
        let ghost st = self.store();
        let mut out: Vec<(String, Vec<crate::find::FindMatch>)> = Vec::new();
        let n = self.entries.len();
        proof {
            assert(st.subrange(0, n as int) =~= st);
            assert(results_view(out@) =~= Seq::<
                (Seq<char>, Seq<(Seq<char>, Seq<char>)>),
            >::empty());
            assert(results_view(out@) + spec_find_all(st, word_lower@) =~= spec_find_all(
                st.subrange(0, n as int),
                word_lower@,
            ));
        }
        for k in 0..n
            invariant
                n == self.entries@.len(),
                st == self.store(),
                st.len() == n,
                word_lower@ == crate::text::lower_of(word@),
                spec_find_all(st, word_lower@) == results_view(out@) + spec_find_all(
                    st.subrange(k as int, n as int),
                    word_lower@,
                ),
            decreases n - k,
        {
            proof {
                lemma_store_of_props(self.entries@);
            }
            let ghost rest = st.subrange(k as int, n as int);
            proof {
                assert(rest[0] == st[k as int]);
                assert(rest.subrange(1, rest.len() as int) =~= st.subrange(k + 1, n as int));
            }
            let pair = &self.entries[k];
            let mut ms: Vec<crate::find::FindMatch> = Vec::new();
            proof {
                assert(crate::find::matches_view(ms@) =~= Seq::<(Seq<char>, Seq<char>)>::empty());
            }
            crate::find::find_in_value(&pair.1.plist, word_lower.as_str(), String::new(), &mut ms);
            proof {
                assert(Seq::<(Seq<char>, Seq<char>)>::empty() + crate::find::spec_find_in(
                    st[k as int].1.root,
                    word_lower@,
                    Seq::empty(),
                ) =~= crate::find::spec_find_in(st[k as int].1.root, word_lower@, Seq::empty()));
                crate::find::lemma_matches_view_props(ms@);
            }
            if ms.len() > 0 {
                let name = pair.0.display_name();
                let ghost out0 = out@;
                out.push((name, ms));
                proof {
                    assert(results_view(out@) =~= results_view(out0).push(
                        (out@.last().0@, crate::find::matches_view(out@.last().1@)),
                    )) by {
                        lemma_results_view_push(out0, out@.last());
                    }
                    assert(results_view(out@) + spec_find_all(
                        st.subrange(k + 1, n as int),
                        word_lower@,
                    ) =~= spec_find_all(st, word_lower@));
                }
            } else {
                proof {
                    assert(results_view(out@) + spec_find_all(
                        st.subrange(k + 1, n as int),
                        word_lower@,
                    ) =~= spec_find_all(st, word_lower@));
                }
            }
        }
        proof {
            assert(st.subrange(n as int, n as int) =~= Seq::<(SpecDomain, SpecDoc)>::empty());
            assert(results_view(out@) + Seq::<(Seq<char>, Seq<(Seq<char>, Seq<char>)>)>::empty()
                =~= results_view(out@));
        }
        out
    }

    /// Turn a preferences-directory listing into the sorted list of
    /// domain names: the global sentinel file is reported under its
    /// display name, every other visible `.plist` file under its stem,
    /// and the names come back in lexicographic order.  A listing
    /// without duplicate names yields a duplicate-free result.
    pub fn list_domains(file_names: &Vec<String>) -> (r: Vec<String>)
        ensures
            crate::text::names_view(r@).to_multiset() == spec_domain_names(
                crate::text::names_view(file_names@),
            ).to_multiset(),
            forall|i: int, j: int|
                0 <= i < j < r@.len() ==> crate::text::lex_le(r@[i]@, r@[j]@),
            spec_domain_names(crate::text::names_view(file_names@)).no_duplicates()
                ==> crate::text::names_view(r@).no_duplicates(),
    {
        let ghost input = crate::text::names_view(file_names@);
        let global_file = ".GlobalPreferences.plist".to_owned();
        let mut picked: Vec<String> = Vec::new();
        let n = file_names.len();
        proof {
            assert(input.subrange(0, n as int) =~= input);
            assert(crate::text::names_view(picked@) =~= Seq::<Seq<char>>::empty());
            assert(crate::text::names_view(picked@) + spec_domain_names(input)
                =~= spec_domain_names(input.subrange(0, n as int)));
        }
        for k in 0..n
            invariant
                n == file_names@.len(),
                input == crate::text::names_view(file_names@),
                input.len() == n,
                global_file@ == spec_global_file(),
                spec_domain_names(input) == crate::text::names_view(picked@) + spec_domain_names(
                    input.subrange(k as int, n as int),
                ),
            decreases n - k,
        {
            let ghost rest = input.subrange(k as int, n as int);
            proof {
                assert(rest[0] == input[k as int]);
                assert(input[k as int] == file_names@[k as int]@);
                assert(rest.subrange(1, rest.len() as int) =~= input.subrange(k + 1, n as int));
            }
            let name = &file_names[k];
            let ghost picked0 = picked@;
            if *name == global_file {
                picked.push("NSGlobalDomain".to_owned());
                proof {
                    assert(crate::text::names_view(picked@) =~= crate::text::names_view(
                        picked0,
                    ).push("NSGlobalDomain"@));
                }
            } else if crate::text::ends_with_str(name.as_str(), ".plist") && !(
            name.unicode_len() > 0 && name.as_str().get_char(0) == '.') {
                proof {
                    reveal_strlit(".plist");
                }
                let stem = name.as_str().substring_char(0, name.unicode_len() - 6);
                picked.push(stem.to_owned());
                proof {
                    assert(crate::text::names_view(picked@) =~= crate::text::names_view(
                        picked0,
                    ).push(name@.subrange(0, name@.len() - ".plist"@.len())));
                }
            }
            proof {
                assert(crate::text::names_view(picked@) + spec_domain_names(
                    input.subrange(k + 1, n as int),
                ) =~= spec_domain_names(input));
            }
        }
        proof {
            assert(input.subrange(n as int, n as int) =~= Seq::<Seq<char>>::empty());
            assert(crate::text::names_view(picked@) + Seq::<Seq<char>>::empty()
                =~= crate::text::names_view(picked@));
            assert(crate::text::names_view(picked@) =~= spec_domain_names(input));
        }
        crate::text::sort_names(picked)
    }
}

impl Preferences {
    /// Import a whole document into `domain`, replacing what the domain
    /// held.  The destination's prior ownership is preserved — not the
    /// imported file's — so an import over another user's preference
    /// file keeps that user's ownership.  The imported encoding stands.
    pub fn import(&mut self, domain: &Domain, incoming: LoadedPlist)
        requires
            old(self).wf(),
            spec_doc_wf(incoming@),
        ensures
            final(self).wf(),
            final(self).store() == dom_insert(
                old(self).store(),
                domain@,
                SpecDoc {
                    root: incoming@.root,
                    owner: match dom_get(old(self).store(), domain@) {
                        Some(prev) => prev.owner,
                        None => None,
                    },
                    is_binary: incoming@.is_binary,
                },
            ),
    {
        let prior_owner: Option<(u32, u32)> = match self.document_of(domain) {
            Some(prev) => prev.orig_owner,
            None => None,
        };
        let doc = LoadedPlist {
            plist: incoming.plist,
            orig_owner: prior_owner,
            is_binary: incoming.is_binary,
        };
        self.attach_domain(domain.deep_clone(), doc);
    }

    /// Export `domain` as a save plan: the tree to serialize and the
    /// encoding to write it in, for the caller to materialize at the
    /// export path.  `KeyNotFound` exactly when the domain has no entry.
    pub fn export(&self, domain: &Domain) -> (r: Result<crate::document::SavePlan, PrefError>)
        ensures
            dom_has(self.store(), domain@) ==> (r matches Ok(p)
                && p.tree@ == crate::convert::spec_value_to_node(
                dom_get(self.store(), domain@)->0.root,
            ) && p.binary == dom_get(self.store(), domain@)->0.is_binary && p.chown == dom_get(
                self.store(),
                domain@,
            )->0.owner),
            !dom_has(self.store(), domain@) ==> (r matches Err(e) && e is KeyNotFound),
    {
        match self.document_of(domain) {
            Some(doc) => Ok(crate::document::save_plan(doc)),
            None => Err(PrefError::KeyNotFound),
        }
    }
}

/// Pushing one result extends the view by one entry.
pub proof fn lemma_results_view_push(
    s: Seq<(String, Vec<crate::find::FindMatch>)>,
    x: (String, Vec<crate::find::FindMatch>),
)
    ensures
        results_view(s.push(x)) == results_view(s).push(
            (x.0@, crate::find::matches_view(x.1@)),
        ),
    decreases s,
{
    if s.len() == 0 {
        assert(s.push(x)[0] == x);
        assert(s.push(x).len() == 1);
        let e = s.push(x).subrange(1, s.push(x).len() as int);
        assert(e =~= Seq::<(String, Vec<crate::find::FindMatch>)>::empty());
        assert(e.len() == 0);
        assert(results_view(e) == Seq::<(Seq<char>, Seq<(Seq<char>, Seq<char>)>)>::empty());
        assert(results_view(s) == Seq::<(Seq<char>, Seq<(Seq<char>, Seq<char>)>)>::empty());
        assert(results_view(s.push(x)) == seq![
            (s.push(x)[0].0@, crate::find::matches_view(s.push(x)[0].1@)),
        ] + results_view(e));
        assert(results_view(s.push(x)).len() == 1);
        assert(results_view(s.push(x))[0] == (x.0@, crate::find::matches_view(x.1@)));
        assert(results_view(s.push(x)) =~~= results_view(s).push(
            (x.0@, crate::find::matches_view(x.1@)),
        ));
    } else {
        assert(s.push(x)[0] == s[0]);
        assert(s.push(x).subrange(1, s.push(x).len() as int) =~= s.subrange(
            1,
            s.len() as int,
        ).push(x));
        lemma_results_view_push(s.subrange(1, s.len() as int), x);
        assert(results_view(s.push(x)) =~~= results_view(s).push(
            (x.0@, crate::find::matches_view(x.1@)),
        ));
    }
}

/// A fold that hits a failing entry is `None` as a whole.
pub proof fn lemma_apply_deletes_prefix_none(
    st: Seq<(SpecDomain, SpecDoc)>,
    b: Seq<(Domain, Option<String>)>,
    i: int,
)
    requires
        0 <= i < b.len(),
        spec_apply_deletes(st, b.subrange(0, i)) matches Some(sti) && spec_delete1(
            sti,
            b[i].0@,
            opt_str_view(b[i].1),
        ) is None,
    ensures
        spec_apply_deletes(st, b) is None,
    decreases b,
{
    if i == 0 {
        assert(b.subrange(0, 0) =~= Seq::<(Domain, Option<String>)>::empty());
        assert(spec_apply_deletes(st, b.subrange(0, 0)) == Some(st));
        assert(spec_delete1(st, b[0].0@, opt_str_view(b[0].1)) is None);
    } else {
        let tail = b.subrange(1, b.len() as int);
        assert(b.subrange(0, i)[0] == b[0]);
        assert(b.subrange(0, i).len() > 0);
        match spec_delete1(st, b[0].0@, opt_str_view(b[0].1)) {
            Some(st2) => {
                assert(b.subrange(0, i).subrange(1, i) =~= tail.subrange(0, i - 1));
                assert(spec_apply_deletes(st, b.subrange(0, i)) == spec_apply_deletes(
                    st2,
                    tail.subrange(0, i - 1),
                ));
                assert(tail[i - 1] == b[i]);
                lemma_apply_deletes_prefix_none(st2, tail, i - 1);
            },
            None => {},
        }
    }
}

} // verus!
