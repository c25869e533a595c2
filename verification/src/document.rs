//! Loaded domain documents and the decisions of the file backend.
//!
//! A `LoadedPlist` is what reading a domain's file produces: the parsed
//! root value, the file's original owner if it existed, and whether the
//! bytes were in binary or textual encoding.  Key-level operations mutate
//! the root in place and never touch the recorded owner or encoding, so a
//! later save writes the same encoding the file was read in and reapplies
//! the same ownership.

use vstd::prelude::*;
use vstd::string::StringExecFns;

use crate::convert::PlistNode;
use crate::convert::lemma_node_to_value_wf;
use crate::convert::prefvalue_to_plist;
use crate::convert::plist_to_prefvalue;
use crate::convert::spec_node_to_value;
use crate::convert::spec_node_wf;
use crate::convert::spec_value_to_node;
use crate::dict::dict_get;
use crate::dict::dict_has;
use crate::dict::dict_insert;
use crate::dict::dict_lookup;
use crate::dict::dict_remove;
use crate::dict::dict_set;
use crate::dict::dict_take;
use crate::dict::lemma_insert_unique;
use crate::dict::lemma_remove_unique;
use crate::error::PrefError;
use crate::values::PrefValue;
use crate::values::SpecValue;
use crate::values::dict_keys_unique;
use crate::values::lemma_entries_wf_iff;
use crate::values::spec_entries_wf;
use crate::values::spec_value_wf;

verus! {

/// A domain document as read from disk: root value, original owner, and
/// whether the source bytes were binary-encoded.
#[derive(Debug)]
pub struct LoadedPlist {
    pub plist: PrefValue,
    pub orig_owner: Option<(u32, u32)>,
    pub is_binary: bool,
}

/// Mathematical model of a `LoadedPlist`.
pub struct SpecDoc {
    pub root: SpecValue,
    pub owner: Option<(u32, u32)>,
    pub is_binary: bool,
}

impl View for LoadedPlist {
    type V = SpecDoc;

    open spec fn view(&self) -> SpecDoc {
        SpecDoc { root: self.plist@, owner: self.orig_owner, is_binary: self.is_binary }
    }
}

/// Well-formedness of a document: its root value is well formed.
pub open spec fn spec_doc_wf(d: SpecDoc) -> bool {
    spec_value_wf(d.root)
}

impl LoadedPlist {
    /// The document a domain without a backing file starts from: an empty
    /// dictionary, no recorded owner, textual encoding.
    pub fn empty() -> (r: LoadedPlist)
        ensures
            r@.root == SpecValue::Dict(Seq::<(Seq<char>, SpecValue)>::empty()),
            r@.owner == None::<(u32, u32)>,
            !r@.is_binary,
            spec_doc_wf(r@),
    {
        let entries: Vec<(String, PrefValue)> = Vec::new();
        proof {
            assert(crate::values::spec_entries_of(entries@) =~= Seq::<(
                Seq<char>,
                SpecValue,
            )>::empty());
        }
        LoadedPlist { plist: PrefValue::Dictionary(entries), orig_owner: None, is_binary: false }
    }

    /// Read the value under `key`.  `KeyNotFound` exactly when the root
    /// dictionary lacks the key; `InvalidType` exactly when the root is
    /// not a dictionary.
    pub fn read_key(&self, key: &str) -> (r: Result<PrefValue, PrefError>)
        ensures
            self@.root is Dict ==> (match dict_get(self@.root->Dict_0, key@) {
                Some(v) => r matches Ok(rv) && rv@ == v,
                None => r matches Err(e) && e is KeyNotFound,
            }),
            !(self@.root is Dict) ==> (r matches Err(e) && e is InvalidType),
    {
        match &self.plist {
            PrefValue::Dictionary(entries) => match dict_lookup(entries, key) {
                Some(v) => Ok(v.deep_clone()),
                None => Err(PrefError::KeyNotFound),
            },
            _ => Err(PrefError::InvalidType),
        }
    }

    /// Store `value` under `key`, creating or overwriting it.  Only the
    /// root changes: the recorded owner and encoding stay as they were.
    pub fn write_key(&mut self, key: &str, value: PrefValue) -> (r: Result<(), PrefError>)
        requires
            spec_doc_wf(old(self)@),
            spec_value_wf(value@),
        ensures
            old(self)@.root is Dict ==> r is Ok && final(self)@.root == SpecValue::Dict(
                dict_insert(old(self)@.root->Dict_0, key@, value@),
            ),
            !(old(self)@.root is Dict) ==> (r matches Err(e) && e is InvalidType) && *final(self)
                == *old(self),
            final(self)@.owner == old(self)@.owner,
            final(self)@.is_binary == old(self)@.is_binary,
            spec_doc_wf(final(self)@),
    {
        match &mut self.plist {
            PrefValue::Dictionary(entries) => {
                proof {
                    lemma_entries_wf_iff(crate::values::spec_entries_of(entries@));
                }
                dict_set(entries, key, value);
                proof {
                    let old_es = old(self)@.root->Dict_0;
                    lemma_insert_unique(old_es, key@, value@);
                    lemma_entries_wf_iff(dict_insert(old_es, key@, value@));
                    crate::dict::lemma_dict_key_idx(old_es, key@);
                }
                Ok(())
            },
            _ => Err(PrefError::InvalidType),
        }
    }

    /// Remove `key`.  `KeyNotFound` exactly when the root dictionary
    /// lacks it; `InvalidType` exactly when the root is not a dictionary.
    pub fn delete_key(&mut self, key: &str) -> (r: Result<(), PrefError>)
        requires
            spec_doc_wf(old(self)@),
        ensures
            old(self)@.root is Dict && dict_has(old(self)@.root->Dict_0, key@) ==> r is Ok
                && final(self)@.root == SpecValue::Dict(
                dict_remove(old(self)@.root->Dict_0, key@),
            ),
            old(self)@.root is Dict && !dict_has(old(self)@.root->Dict_0, key@) ==> (r matches Err(
                e,
            ) && e is KeyNotFound) && final(self)@.root == old(self)@.root,
            !(old(self)@.root is Dict) ==> (r matches Err(e) && e is InvalidType) && *final(self)
                == *old(self),
            final(self)@.owner == old(self)@.owner,
            final(self)@.is_binary == old(self)@.is_binary,
            spec_doc_wf(final(self)@),
    {
        match &mut self.plist {
            PrefValue::Dictionary(entries) => {
                proof {
                    lemma_entries_wf_iff(crate::values::spec_entries_of(entries@));
                }
                let found = crate::dict::dict_del(entries, key);
                proof {
                    let old_es = old(self)@.root->Dict_0;
                    lemma_remove_unique(old_es, key@);
                    lemma_entries_wf_iff(dict_remove(old_es, key@));
                    crate::dict::lemma_dict_key_idx(old_es, key@);
                }
                if found {
                    Ok(())
                } else {
                    Err(PrefError::KeyNotFound)
                }
            },
            _ => Err(PrefError::InvalidType),
        }
    }

    /// Move the value under `old_key` to `new_key`: the old binding goes
    /// away, the value lands under the new name (overwriting it if taken).
    /// `KeyNotFound` exactly when `old_key` is absent.
    pub fn rename_key(&mut self, old_key: &str, new_key: &str) -> (r: Result<(), PrefError>)
        requires
            spec_doc_wf(old(self)@),
        ensures
            old(self)@.root is Dict && dict_has(old(self)@.root->Dict_0, old_key@) ==> r is Ok
                && final(self)@.root == SpecValue::Dict(
                dict_insert(
                    dict_remove(old(self)@.root->Dict_0, old_key@),
                    new_key@,
                    dict_get(old(self)@.root->Dict_0, old_key@)->0,
                ),
            ),
            old(self)@.root is Dict && !dict_has(old(self)@.root->Dict_0, old_key@) ==> (r
                matches Err(e) && e is KeyNotFound) && final(self)@.root == old(self)@.root,
            !(old(self)@.root is Dict) ==> (r matches Err(e) && e is InvalidType) && *final(self)
                == *old(self),
            final(self)@.owner == old(self)@.owner,
            final(self)@.is_binary == old(self)@.is_binary,
            spec_doc_wf(final(self)@),
    {
        match &mut self.plist {
            PrefValue::Dictionary(entries) => {
                proof {
                    lemma_entries_wf_iff(crate::values::spec_entries_of(entries@));
                    crate::dict::lemma_dict_key_idx(
                        crate::values::spec_entries_of(entries@),
                        old_key@,
                    );
                }
                let ghost old_es = old(self)@.root->Dict_0;
                match dict_take(entries, old_key) {
                    Some(value) => {
                        proof {
                            lemma_remove_unique(old_es, old_key@);
                            lemma_entries_wf_iff(dict_remove(old_es, old_key@));
                            lemma_entries_wf_iff(old_es);
                            crate::dict::lemma_dict_key_idx(old_es, old_key@);
                        }
                        dict_set(entries, new_key, value);
                        proof {
                            let removed = dict_remove(old_es, old_key@);
                            lemma_insert_unique(
                                removed,
                                new_key@,
                                dict_get(old_es, old_key@)->0,
                            );
                            lemma_entries_wf_iff(
                                dict_insert(
                                    removed,
                                    new_key@,
                                    dict_get(old_es, old_key@)->0,
                                ),
                            );
                            crate::dict::lemma_dict_key_idx(removed, new_key@);
                        }
                        Ok(())
                    },
                    None => Err(PrefError::KeyNotFound),
                }
            },
            _ => Err(PrefError::InvalidType),
        }
    }
}

impl LoadedPlist {
    /// A structural copy of this document, equal to it in the model.
    pub fn deep_clone(&self) -> (r: LoadedPlist)
        ensures
            r@ == self@,
    {
        LoadedPlist {
            plist: self.plist.deep_clone(),
            orig_owner: self.orig_owner,
            is_binary: self.is_binary,
        }
    }
}

/// The outcome of loading a domain file, decided from what the reader
/// found: whether the file existed, what textual-first parsing yielded,
/// and the owner recorded on it.  Textual decoding is attempted first;
/// only on its failure does the binary reading count, and whichever
/// succeeded fixes the encoding the next save writes.
pub fn interpret_load(
    existed: bool,
    xml: Option<PlistNode>,
    binary: Option<PlistNode>,
    owner: Option<(u32, u32)>,
    binary_err: &str,
) -> (r: Result<LoadedPlist, PrefError>)
    requires
        xml matches Some(n) ==> spec_node_wf(n@),
        binary matches Some(n) ==> spec_node_wf(n@),
    ensures
        !existed ==> (r matches Ok(d) && d@.root == SpecValue::Dict(
            Seq::<(Seq<char>, SpecValue)>::empty(),
        ) && d@.owner == None::<(u32, u32)> && !d@.is_binary),
        existed ==> (match xml {
            Some(n) => r matches Ok(d) && d@.root == spec_node_to_value(n@) && d@.owner == owner
                && !d@.is_binary,
            None => match binary {
                Some(n) => r matches Ok(d) && d@.root == spec_node_to_value(n@) && d@.owner
                    == owner && d@.is_binary,
                None => r matches Err(e) && e matches PrefError::Other(m) && m@
                    == "Plist parse error: "@ + binary_err@,
            },
        }),
        r matches Ok(d) ==> spec_doc_wf(d@),
{
    if !existed {
        return Ok(LoadedPlist::empty());
    }
    match xml {
        Some(node) => {
            proof {
                lemma_node_to_value_wf(node@);
            }
            let root = plist_to_prefvalue(&node);
            Ok(LoadedPlist { plist: root, orig_owner: owner, is_binary: false })
        },
        None => match binary {
            Some(node) => {
                proof {
                    lemma_node_to_value_wf(node@);
                }
                let root = plist_to_prefvalue(&node);
                Ok(LoadedPlist { plist: root, orig_owner: owner, is_binary: true })
            },
            None => Err(
                PrefError::Other("Plist parse error: ".to_owned().concat(binary_err)),
            ),
        },
    }
}

/// Everything the save step needs decided for it: the tree to serialize,
/// the encoding to serialize it in, and the ownership to reapply to the
/// replacement file before it is renamed into place.
#[derive(Debug)]
pub struct SavePlan {
    pub tree: PlistNode,
    pub binary: bool,
    pub chown: Option<(u32, u32)>,
}

/// Decide the save of a document: serialize its root in the encoding it
/// was read in, and reapply the owner recorded at load time.  Binary
/// stays binary, textual stays textual, and a root owned by another user
/// keeps that user.
pub fn save_plan(doc: &LoadedPlist) -> (p: SavePlan)
    ensures
        p.tree@ == spec_value_to_node(doc@.root),
        p.binary == doc@.is_binary,
        p.chown == doc@.owner,
{
    SavePlan {
        tree: prefvalue_to_plist(&doc.plist),
        binary: doc.is_binary,
        chown: doc.orig_owner,
    }
}

} // verus!
