//! Conversion between a property-list document tree and the preference
//! value model.
//!
//! A `PlistNode` models exactly what a plist document can hold.  The
//! mapping to `PrefValue` is structural; in the reverse direction the two
//! kinds a plist cannot represent, `Url` and `Uuid`, are written as plain
//! strings.  Dates cross this boundary unchanged: both sides carry seconds
//! relative to the same reference epoch, converted at the I/O edge.

use vstd::prelude::*;

use crate::values::PrefValue;
use crate::values::Real64;
use crate::values::SpecReal;
use crate::values::SpecValue;
use crate::values::dict_keys_unique;
use crate::values::lemma_entries_of_props;
use crate::values::lemma_values_of_props;
use crate::values::spec_entries_of;
use crate::values::spec_value_of;
use crate::values::spec_value_wf;
use crate::values::spec_values_of;
use crate::values::spec_values_wf;

verus! {

broadcast use vstd::std_specs::vec::axiom_vec_index_decreases;

/// One node of a property-list document tree.
#[derive(Debug)]
pub enum PlistNode {
    String(String),
    Integer(i64),
    Real(Real64),
    Boolean(bool),
    Array(Vec<PlistNode>),
    Dictionary(Vec<(String, PlistNode)>),
    Data(Vec<u8>),
    Date(Real64),
    Uid(u64),
}

/// Mathematical model of a `PlistNode`.
pub enum SpecNode {
    Str(Seq<char>),
    Int(i64),
    Real(SpecReal),
    Bool(bool),
    Arr(Seq<SpecNode>),
    Dict(Seq<(Seq<char>, SpecNode)>),
    Bytes(Seq<u8>),
    Date(SpecReal),
    Uid(u64),
}

/// Model of a single node.
pub open spec fn spec_node_of(n: PlistNode) -> SpecNode
    decreases n,
{
    match n {
        PlistNode::String(s) => SpecNode::Str(s@),
        PlistNode::Integer(i) => SpecNode::Int(i),
        PlistNode::Real(r) => SpecNode::Real(r@),
        PlistNode::Boolean(b) => SpecNode::Bool(b),
        PlistNode::Array(items) => {
            proof {
                assert(decreases_to!(n => items));
                assert(decreases_to!(items => items@));
            }
            SpecNode::Arr(spec_nodes_of(items@))
        },
        PlistNode::Dictionary(entries) => {
            proof {
                assert(decreases_to!(n => entries));
                assert(decreases_to!(entries => entries@));
            }
            SpecNode::Dict(spec_node_entries_of(entries@))
        },
        PlistNode::Data(bytes) => SpecNode::Bytes(bytes@),
        PlistNode::Date(r) => SpecNode::Date(r@),
        PlistNode::Uid(u) => SpecNode::Uid(u),
    }
}

/// Model of a sequence of nodes, element by element.
pub open spec fn spec_nodes_of(s: Seq<PlistNode>) -> Seq<SpecNode>
    decreases s,
{
    if s.len() == 0 {
        Seq::empty()
    } else {
        seq![spec_node_of(s[0])] + spec_nodes_of(s.subrange(1, s.len() as int))
    }
}

/// Model of a sequence of dictionary entries, element by element.
pub open spec fn spec_node_entries_of(s: Seq<(String, PlistNode)>) -> Seq<(Seq<char>, SpecNode)>
    decreases s,
{
    if s.len() == 0 {
        Seq::empty()
    } else {
        seq![(s[0].0@, spec_node_of(s[0].1))] + spec_node_entries_of(
            s.subrange(1, s.len() as int),
        )
    }
}

impl View for PlistNode {
    type V = SpecNode;

    open spec fn view(&self) -> SpecNode {
        spec_node_of(*self)
    }
}

/// `spec_nodes_of` maps the sequence element by element.
pub broadcast proof fn lemma_nodes_of_props(s: Seq<PlistNode>)
    ensures
        (#[trigger] spec_nodes_of(s)).len() == s.len(),
        forall|i: int| 0 <= i < s.len() ==> spec_nodes_of(s)[i] == spec_node_of(s[i]),
    decreases s,
{
    if s.len() > 0 {
        lemma_nodes_of_props(s.subrange(1, s.len() as int));
        assert forall|i: int| 0 <= i < s.len() implies spec_nodes_of(s)[i] == spec_node_of(
            s[i],
        ) by {
            if i > 0 {
                assert(s.subrange(1, s.len() as int)[i - 1] == s[i]);
            }
        }
    }
}

/// `spec_node_entries_of` maps the sequence entry by entry.
pub broadcast proof fn lemma_node_entries_of_props(s: Seq<(String, PlistNode)>)
    ensures
        (#[trigger] spec_node_entries_of(s)).len() == s.len(),
        forall|i: int|
            0 <= i < s.len() ==> spec_node_entries_of(s)[i] == (s[i].0@, spec_node_of(s[i].1)),
    decreases s,
{
    if s.len() > 0 {
        lemma_node_entries_of_props(s.subrange(1, s.len() as int));
        assert forall|i: int|
            0 <= i < s.len() implies spec_node_entries_of(s)[i] == (
            s[i].0@,
            spec_node_of(s[i].1),
        ) by {
            if i > 0 {
                assert(s.subrange(1, s.len() as int)[i - 1] == s[i]);
            }
        }
    }
}

/// No key occurs twice among node dictionary entries.
pub open spec fn node_keys_unique(es: Seq<(Seq<char>, SpecNode)>) -> bool {
    forall|i: int, j: int| 0 <= i < j < es.len() ==> es[i].0 != es[j].0
}

/// Well-formedness of a node tree: unique keys in every dictionary.
pub open spec fn spec_node_wf(n: SpecNode) -> bool
    decreases n,
{
    match n {
        SpecNode::Arr(items) => spec_nodes_wf(items),
        SpecNode::Dict(es) => node_keys_unique(es) && spec_node_entries_wf(es),
        _ => true,
    }
}

/// Well-formedness of a sequence of nodes, element by element.
pub open spec fn spec_nodes_wf(s: Seq<SpecNode>) -> bool
    decreases s,
{
    if s.len() == 0 {
        true
    } else {
        spec_node_wf(s[0]) && spec_nodes_wf(s.subrange(1, s.len() as int))
    }
}

/// Well-formedness of a sequence of node entries, entry by entry.
pub open spec fn spec_node_entries_wf(s: Seq<(Seq<char>, SpecNode)>) -> bool
    decreases s,
{
    if s.len() == 0 {
        true
    } else {
        spec_node_wf(s[0].1) && spec_node_entries_wf(s.subrange(1, s.len() as int))
    }
}

/// What a plist node means as a preference value: the structural mapping.
pub open spec fn spec_node_to_value(n: SpecNode) -> SpecValue
    decreases n,
{
    match n {
        SpecNode::Str(s) => SpecValue::Str(s),
        SpecNode::Int(i) => SpecValue::Int(i),
        SpecNode::Real(r) => SpecValue::Real(r),
        SpecNode::Bool(b) => SpecValue::Bool(b),
        SpecNode::Arr(items) => SpecValue::Arr(spec_nodes_to_values(items)),
        SpecNode::Dict(es) => SpecValue::Dict(spec_node_entries_to_values(es)),
        SpecNode::Bytes(d) => SpecValue::Bytes(d),
        SpecNode::Date(r) => SpecValue::Date(r),
        SpecNode::Uid(u) => SpecValue::Uid(u),
    }
}

/// Element-by-element form of `spec_node_to_value` on arrays.
pub open spec fn spec_nodes_to_values(s: Seq<SpecNode>) -> Seq<SpecValue>
    decreases s,
{
    if s.len() == 0 {
        Seq::empty()
    } else {
        seq![spec_node_to_value(s[0])] + spec_nodes_to_values(s.subrange(1, s.len() as int))
    }
}

/// Entry-by-entry form of `spec_node_to_value` on dictionaries.
pub open spec fn spec_node_entries_to_values(s: Seq<(Seq<char>, SpecNode)>) -> Seq<
    (Seq<char>, SpecValue),
>
    decreases s,
{
    if s.len() == 0 {
        Seq::empty()
    } else {
        seq![(s[0].0, spec_node_to_value(s[0].1))] + spec_node_entries_to_values(
            s.subrange(1, s.len() as int),
        )
    }
}

/// What a preference value writes into a plist: structural, except that
/// `Url` and `Uuid` become plain strings.
pub open spec fn spec_value_to_node(v: SpecValue) -> SpecNode
    decreases v,
{
    match v {
        SpecValue::Str(s) => SpecNode::Str(s),
        SpecValue::Int(i) => SpecNode::Int(i),
        SpecValue::Real(r) => SpecNode::Real(r),
        SpecValue::Bool(b) => SpecNode::Bool(b),
        SpecValue::Arr(items) => SpecNode::Arr(spec_values_to_nodes(items)),
        SpecValue::Dict(es) => SpecNode::Dict(spec_value_entries_to_nodes(es)),
        SpecValue::Bytes(d) => SpecNode::Bytes(d),
        SpecValue::Date(r) => SpecNode::Date(r),
        SpecValue::Url(s) => SpecNode::Str(s),
        SpecValue::Uuid(s) => SpecNode::Str(s),
        SpecValue::Uid(u) => SpecNode::Uid(u),
    }
}

/// Element-by-element form of `spec_value_to_node` on arrays.
pub open spec fn spec_values_to_nodes(s: Seq<SpecValue>) -> Seq<SpecNode>
    decreases s,
{
    if s.len() == 0 {
        Seq::empty()
    } else {
        seq![spec_value_to_node(s[0])] + spec_values_to_nodes(s.subrange(1, s.len() as int))
    }
}

/// Entry-by-entry form of `spec_value_to_node` on dictionaries.
pub open spec fn spec_value_entries_to_nodes(s: Seq<(Seq<char>, SpecValue)>) -> Seq<
    (Seq<char>, SpecNode),
>
    decreases s,
{
    if s.len() == 0 {
        Seq::empty()
    } else {
        seq![(s[0].0, spec_value_to_node(s[0].1))] + spec_value_entries_to_nodes(
            s.subrange(1, s.len() as int),
        )
    }
}

/// `spec_nodes_to_values` maps element by element.
pub broadcast proof fn lemma_nodes_to_values_props(s: Seq<SpecNode>)
    ensures
        (#[trigger] spec_nodes_to_values(s)).len() == s.len(),
        forall|i: int| 0 <= i < s.len() ==> spec_nodes_to_values(s)[i] == spec_node_to_value(s[i]),
    decreases s,
{
    if s.len() > 0 {
        lemma_nodes_to_values_props(s.subrange(1, s.len() as int));
        assert forall|i: int|
            0 <= i < s.len() implies spec_nodes_to_values(s)[i] == spec_node_to_value(s[i]) by {
            if i > 0 {
                assert(s.subrange(1, s.len() as int)[i - 1] == s[i]);
            }
        }
    }
}

/// `spec_node_entries_to_values` maps entry by entry.
pub broadcast proof fn lemma_node_entries_to_values_props(s: Seq<(Seq<char>, SpecNode)>)
    ensures
        (#[trigger] spec_node_entries_to_values(s)).len() == s.len(),
        forall|i: int|
            0 <= i < s.len() ==> spec_node_entries_to_values(s)[i] == (
                s[i].0,
                spec_node_to_value(s[i].1),
            ),
    decreases s,
{
    if s.len() > 0 {
        lemma_node_entries_to_values_props(s.subrange(1, s.len() as int));
        assert forall|i: int|
            0 <= i < s.len() implies spec_node_entries_to_values(s)[i] == (
            s[i].0,
            spec_node_to_value(s[i].1),
        ) by {
            if i > 0 {
                assert(s.subrange(1, s.len() as int)[i - 1] == s[i]);
            }
        }
    }
}

/// `spec_values_to_nodes` maps element by element.
pub broadcast proof fn lemma_values_to_nodes_props(s: Seq<SpecValue>)
    ensures
        (#[trigger] spec_values_to_nodes(s)).len() == s.len(),
        forall|i: int| 0 <= i < s.len() ==> spec_values_to_nodes(s)[i] == spec_value_to_node(s[i]),
    decreases s,
{
    if s.len() > 0 {
        lemma_values_to_nodes_props(s.subrange(1, s.len() as int));
        assert forall|i: int|
            0 <= i < s.len() implies spec_values_to_nodes(s)[i] == spec_value_to_node(s[i]) by {
            if i > 0 {
                assert(s.subrange(1, s.len() as int)[i - 1] == s[i]);
            }
        }
    }
}

/// `spec_value_entries_to_nodes` maps entry by entry.
pub broadcast proof fn lemma_value_entries_to_nodes_props(s: Seq<(Seq<char>, SpecValue)>)
    ensures
        (#[trigger] spec_value_entries_to_nodes(s)).len() == s.len(),
        forall|i: int|
            0 <= i < s.len() ==> spec_value_entries_to_nodes(s)[i] == (
                s[i].0,
                spec_value_to_node(s[i].1),
            ),
    decreases s,
{
    if s.len() > 0 {
        lemma_value_entries_to_nodes_props(s.subrange(1, s.len() as int));
        assert forall|i: int|
            0 <= i < s.len() implies spec_value_entries_to_nodes(s)[i] == (
            s[i].0,
            spec_value_to_node(s[i].1),
        ) by {
            if i > 0 {
                assert(s.subrange(1, s.len() as int)[i - 1] == s[i]);
            }
        }
    }
}

/// Read a plist tree as a preference value.
#[verifier::loop_isolation(false)]
pub fn plist_to_prefvalue(n: &PlistNode) -> (r: PrefValue)
    ensures
        r@ == spec_node_to_value(n@),
    decreases n,
{
    broadcast use
        lemma_values_of_props,
        lemma_entries_of_props,
        lemma_nodes_of_props,
        lemma_node_entries_of_props,
        lemma_nodes_to_values_props,
        lemma_node_entries_to_values_props;

    match n {
        PlistNode::String(s) => PrefValue::String(s.clone()),
        PlistNode::Integer(i) => PrefValue::Integer(*i),
        PlistNode::Real(r) => PrefValue::Float(r.deep_clone()),
        PlistNode::Boolean(b) => PrefValue::Boolean(*b),
        PlistNode::Array(items) => {
            let mut out: Vec<PrefValue> = Vec::new();
            let n_items = items.len();
            for k in 0..n_items
            invariant
                out.len() == k,
                forall|j: int| 0 <= j < k ==> out@[j]@ == spec_node_to_value(items@[j]@),
            decreases n_items - k,
        {
            proof {
                assert(decreases_to!(n => items));
                assert(decreases_to!(items => items@));
                assert(decreases_to!(items@ => items@[k as int]));
            }
            out.push(plist_to_prefvalue(&items[k]));
        }
            proof {
                assert(spec_values_of(out@) =~= spec_nodes_to_values(spec_nodes_of(items@)));
            }
            PrefValue::Array(out)
        },
        PlistNode::Dictionary(entries) => {
            let mut out: Vec<(String, PrefValue)> = Vec::new();
            let n_entries = entries.len();
            for k in 0..n_entries
            invariant
                out.len() == k,
                forall|j: int|
                    0 <= j < k ==> out@[j].0@ == entries@[j].0@ && out@[j].1@
                        == spec_node_to_value(entries@[j].1@),
            decreases n_entries - k,
        {
            proof {
                assert(decreases_to!(n => entries));
                assert(decreases_to!(entries => entries@));
                assert(decreases_to!(entries@ => entries@[k as int]));
                assert(decreases_to!(entries@[k as int] => entries@[k as int].1));
            }
            let e = &entries[k];
            out.push((e.0.clone(), plist_to_prefvalue(&e.1)));
        }
            proof {
                assert(spec_entries_of(out@) =~= spec_node_entries_to_values(
                    spec_node_entries_of(entries@),
                ));
            }
            PrefValue::Dictionary(out)
        },
        PlistNode::Data(bytes) => {
            let mut out: Vec<u8> = Vec::new();
            let n_bytes = bytes.len();
            for k in 0..n_bytes
            invariant
                out.len() == k,
                forall|j: int| 0 <= j < k ==> out@[j] == bytes@[j],
            decreases n_bytes - k,
        {
            out.push(bytes[k]);
        }
            proof {
                assert(out@ =~= bytes@);
            }
            PrefValue::Data(out)
        },
        PlistNode::Date(r) => PrefValue::Date(r.deep_clone()),
        PlistNode::Uid(u) => PrefValue::Uid(*u),
    }
}

/// Write a preference value as a plist tree.
#[verifier::loop_isolation(false)]
pub fn prefvalue_to_plist(v: &PrefValue) -> (r: PlistNode)
    ensures
        r@ == spec_value_to_node(v@),
    decreases v,
{
    broadcast use
        lemma_values_of_props,
        lemma_entries_of_props,
        lemma_nodes_of_props,
        lemma_node_entries_of_props,
        lemma_values_to_nodes_props,
        lemma_value_entries_to_nodes_props;

    match v {
        PrefValue::String(s) => PlistNode::String(s.clone()),
        PrefValue::Integer(i) => PlistNode::Integer(*i),
        PrefValue::Float(r) => PlistNode::Real(r.deep_clone()),
        PrefValue::Boolean(b) => PlistNode::Boolean(*b),
        PrefValue::Array(items) => {
            let mut out: Vec<PlistNode> = Vec::new();
            let n_items = items.len();
            for k in 0..n_items
            invariant
                out.len() == k,
                forall|j: int| 0 <= j < k ==> out@[j]@ == spec_value_to_node(items@[j]@),
            decreases n_items - k,
        {
            proof {
                assert(decreases_to!(v => items));
                assert(decreases_to!(items => items@));
                assert(decreases_to!(items@ => items@[k as int]));
            }
            out.push(prefvalue_to_plist(&items[k]));
        }
            proof {
                assert(spec_nodes_of(out@) =~= spec_values_to_nodes(spec_values_of(items@)));
            }
            PlistNode::Array(out)
        },
        PrefValue::Dictionary(entries) => {
            let mut out: Vec<(String, PlistNode)> = Vec::new();
            let n_entries = entries.len();
            for k in 0..n_entries
            invariant
                out.len() == k,
                forall|j: int|
                    0 <= j < k ==> out@[j].0@ == entries@[j].0@ && out@[j].1@
                        == spec_value_to_node(entries@[j].1@),
            decreases n_entries - k,
        {
            proof {
                assert(decreases_to!(v => entries));
                assert(decreases_to!(entries => entries@));
                assert(decreases_to!(entries@ => entries@[k as int]));
                assert(decreases_to!(entries@[k as int] => entries@[k as int].1));
            }
            let e = &entries[k];
            out.push((e.0.clone(), prefvalue_to_plist(&e.1)));
        }
            proof {
                assert(spec_node_entries_of(out@) =~= spec_value_entries_to_nodes(
                    spec_entries_of(entries@),
                ));
            }
            PlistNode::Dictionary(out)
        },
        PrefValue::Data(bytes) => {
            let mut out: Vec<u8> = Vec::new();
            let n_bytes = bytes.len();
            for k in 0..n_bytes
            invariant
                out.len() == k,
                forall|j: int| 0 <= j < k ==> out@[j] == bytes@[j],
            decreases n_bytes - k,
        {
            out.push(bytes[k]);
        }
            proof {
                assert(out@ =~= bytes@);
            }
            PlistNode::Data(out)
        },
        PrefValue::Date(r) => PlistNode::Date(r.deep_clone()),
        PrefValue::Url(s) => PlistNode::String(s.clone()),
        PrefValue::Uuid(s) => PlistNode::String(s.clone()),
        PrefValue::Uid(u) => PlistNode::Uid(*u),
    }
}

/// Whether every kind in the tree survives a trip through a plist: every
/// kind does except `Url` and `Uuid`, which a plist writes as strings.
pub open spec fn spec_plist_convertible(v: SpecValue) -> bool
    decreases v,
{
    match v {
        SpecValue::Arr(items) => spec_values_convertible(items),
        SpecValue::Dict(es) => spec_entries_convertible(es),
        SpecValue::Url(_) => false,
        SpecValue::Uuid(_) => false,
        _ => true,
    }
}

/// Convertibility of a sequence of values, element by element.
pub open spec fn spec_values_convertible(s: Seq<SpecValue>) -> bool
    decreases s,
{
    if s.len() == 0 {
        true
    } else {
        spec_plist_convertible(s[0]) && spec_values_convertible(s.subrange(1, s.len() as int))
    }
}

/// Convertibility of a sequence of entries, entry by entry.
pub open spec fn spec_entries_convertible(s: Seq<(Seq<char>, SpecValue)>) -> bool
    decreases s,
{
    if s.len() == 0 {
        true
    } else {
        spec_plist_convertible(s[0].1) && spec_entries_convertible(s.subrange(1, s.len() as int))
    }
}

/// Round trip: any value whose kinds a plist can represent reads back
/// unchanged after being written out.  `Url` and `Uuid` are the exceptions
/// `spec_plist_convertible` excludes: a plist writes them as strings.
pub proof fn lemma_plist_round_trip(v: SpecValue)
    requires
        spec_plist_convertible(v),
    ensures
        spec_node_to_value(spec_value_to_node(v)) == v,
    decreases v,
{
    match v {
        SpecValue::Arr(items) => {
            lemma_plist_round_trip_values(items);
            assert(spec_nodes_to_values(spec_values_to_nodes(items)) == items);
        },
        SpecValue::Dict(es) => {
            lemma_plist_round_trip_entries(es);
            assert(spec_node_entries_to_values(spec_value_entries_to_nodes(es)) == es);
        },
        _ => {},
    }
}

/// Round trip over a sequence of values.
pub proof fn lemma_plist_round_trip_values(s: Seq<SpecValue>)
    requires
        spec_values_convertible(s),
    ensures
        spec_nodes_to_values(spec_values_to_nodes(s)) == s,
    decreases s,
{
    broadcast use lemma_values_to_nodes_props, lemma_nodes_to_values_props;

    if s.len() == 0 {
        assert(spec_nodes_to_values(spec_values_to_nodes(s)) =~= s);
    } else {
        let tail = s.subrange(1, s.len() as int);
        lemma_plist_round_trip(s[0]);
        lemma_plist_round_trip_values(tail);
        assert forall|i: int|
            0 <= i < s.len() implies spec_nodes_to_values(spec_values_to_nodes(s))[i] == s[i] by {
            if i > 0 {
                assert(spec_nodes_to_values(spec_values_to_nodes(tail))[i - 1] == tail[i - 1]);
                assert(tail[i - 1] == s[i]);
            }
        }
        assert(spec_nodes_to_values(spec_values_to_nodes(s)) =~= s);
    }
}

/// Round trip over a sequence of dictionary entries.
pub proof fn lemma_plist_round_trip_entries(s: Seq<(Seq<char>, SpecValue)>)
    requires
        spec_entries_convertible(s),
    ensures
        spec_node_entries_to_values(spec_value_entries_to_nodes(s)) == s,
    decreases s,
{
    broadcast use lemma_value_entries_to_nodes_props, lemma_node_entries_to_values_props;

    if s.len() == 0 {
        assert(spec_node_entries_to_values(spec_value_entries_to_nodes(s)) =~= s);
    } else {
        let tail = s.subrange(1, s.len() as int);
        lemma_plist_round_trip(s[0].1);
        lemma_plist_round_trip_entries(tail);
        assert forall|i: int|
            0 <= i < s.len() implies spec_node_entries_to_values(spec_value_entries_to_nodes(s))[i]
            == s[i] by {
            if i > 0 {
                assert(spec_node_entries_to_values(spec_value_entries_to_nodes(tail))[i - 1]
                    == tail[i - 1]);
                assert(tail[i - 1] == s[i]);
            }
        }
        assert(spec_node_entries_to_values(spec_value_entries_to_nodes(s)) =~= s);
    }
}

/// Reverse round trip: a document tree read as preference values and
/// written straight back serializes to the identical tree.  An edit that
/// touches one key therefore leaves every other node of the file's
/// content exactly as it was read.
pub proof fn lemma_plist_reencode(n: SpecNode)
    ensures
        spec_value_to_node(spec_node_to_value(n)) == n,
    decreases n,
{
    match n {
        SpecNode::Arr(items) => {
            lemma_plist_reencode_nodes(items);
        },
        SpecNode::Dict(es) => {
            lemma_plist_reencode_entries(es);
        },
        _ => {},
    }
}

/// Reverse round trip over a sequence of nodes.
pub proof fn lemma_plist_reencode_nodes(s: Seq<SpecNode>)
    ensures
        spec_values_to_nodes(spec_nodes_to_values(s)) == s,
    decreases s,
{
    broadcast use lemma_nodes_to_values_props, lemma_values_to_nodes_props;

    if s.len() == 0 {
        assert(spec_values_to_nodes(spec_nodes_to_values(s)) =~= s);
    } else {
        let tail = s.subrange(1, s.len() as int);
        lemma_plist_reencode(s[0]);
        lemma_plist_reencode_nodes(tail);
        assert forall|i: int|
            0 <= i < s.len() implies spec_values_to_nodes(spec_nodes_to_values(s))[i] == s[i] by {
            if i > 0 {
                assert(spec_values_to_nodes(spec_nodes_to_values(tail))[i - 1] == tail[i - 1]);
                assert(tail[i - 1] == s[i]);
            }
        }
        assert(spec_values_to_nodes(spec_nodes_to_values(s)) =~= s);
    }
}

/// Reverse round trip over a sequence of dictionary entries.
pub proof fn lemma_plist_reencode_entries(s: Seq<(Seq<char>, SpecNode)>)
    ensures
        spec_value_entries_to_nodes(spec_node_entries_to_values(s)) == s,
    decreases s,
{
    broadcast use lemma_node_entries_to_values_props, lemma_value_entries_to_nodes_props;

    if s.len() == 0 {
        assert(spec_value_entries_to_nodes(spec_node_entries_to_values(s)) =~= s);
    } else {
        let tail = s.subrange(1, s.len() as int);
        lemma_plist_reencode(s[0].1);
        lemma_plist_reencode_entries(tail);
        assert forall|i: int|
            0 <= i < s.len() implies spec_value_entries_to_nodes(
            spec_node_entries_to_values(s),
        )[i] == s[i] by {
            if i > 0 {
                assert(spec_value_entries_to_nodes(spec_node_entries_to_values(tail))[i - 1]
                    == tail[i - 1]);
                assert(tail[i - 1] == s[i]);
            }
        }
        assert(spec_value_entries_to_nodes(spec_node_entries_to_values(s)) =~= s);
    }
}

/// Reading a plist keeps dictionary keys unique: the conversion carries
/// every dictionary's key sequence over unchanged.
pub proof fn lemma_node_to_value_wf(n: SpecNode)
    requires
        spec_node_wf(n),
    ensures
        spec_value_wf(spec_node_to_value(n)),
    decreases n,
{
    broadcast use
        lemma_nodes_to_values_props,
        lemma_node_entries_to_values_props,
        crate::values::lemma_values_wf_iff,
        crate::values::lemma_entries_wf_iff;

    match n {
        SpecNode::Arr(items) => {
            lemma_nodes_wf_all(items);
            let vs = spec_nodes_to_values(items);
            assert forall|i: int| 0 <= i < vs.len() implies spec_value_wf(#[trigger] vs[i]) by {
                lemma_node_to_value_wf(items[i]);
            }
            crate::values::lemma_values_wf_iff(vs);
            assert(spec_values_wf(vs));
        },
        SpecNode::Dict(es) => {
            lemma_node_entries_wf_all(es);
            let ves = spec_node_entries_to_values(es);
            assert forall|i: int| 0 <= i < ves.len() implies spec_value_wf(
                (#[trigger] ves[i]).1,
            ) by {
                lemma_node_to_value_wf(es[i].1);
            }
            crate::values::lemma_entries_wf_iff(ves);
            assert(crate::values::spec_entries_wf(ves));
            assert(dict_keys_unique(ves));
        },
        _ => {},
    }
}

/// Pointwise reading of `spec_nodes_wf`.
pub proof fn lemma_nodes_wf_all(s: Seq<SpecNode>)
    requires
        spec_nodes_wf(s),
    ensures
        forall|i: int| 0 <= i < s.len() ==> spec_node_wf(#[trigger] s[i]),
    decreases s,
{
    if s.len() > 0 {
        let tail = s.subrange(1, s.len() as int);
        lemma_nodes_wf_all(tail);
        assert forall|i: int| 0 <= i < s.len() implies spec_node_wf(#[trigger] s[i]) by {
            if i > 0 {
                assert(tail[i - 1] == s[i]);
            }
        }
    }
}

/// Pointwise reading of `spec_node_entries_wf`.
pub proof fn lemma_node_entries_wf_all(s: Seq<(Seq<char>, SpecNode)>)
    requires
        spec_node_entries_wf(s),
    ensures
        forall|i: int| 0 <= i < s.len() ==> spec_node_wf((#[trigger] s[i]).1),
    decreases s,
{
    if s.len() > 0 {
        let tail = s.subrange(1, s.len() as int);
        lemma_node_entries_wf_all(tail);
        assert forall|i: int| 0 <= i < s.len() implies spec_node_wf((#[trigger] s[i]).1) by {
            if i > 0 {
                assert(tail[i - 1] == s[i]);
            }
        }
    }
}

} // verus!
