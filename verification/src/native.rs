//! Conversion between the native preference service's value objects and
//! the preference value model.
//!
//! The service hands out opaque, reference-counted objects; `CfObject`
//! models exactly what the conversion layer reads from them.  Booleans are
//! two process-wide sentinel objects compared by identity, which the model
//! renders as an enum with exactly two inhabitants compared by tag.  A
//! number is probed as a 64-bit signed integer and accepted as `Integer`
//! only when its native type tag is integral too; otherwise its floating
//! reading is used.  Any value of an unrecognized native kind degrades to
//! a placeholder string instead of failing, so one exotic leaf never makes
//! the rest of a domain unreadable.

use vstd::prelude::*;
use vstd::string::StringExecFns;

use crate::values::PrefValue;
use crate::values::Real64;
use crate::values::SpecReal;
use crate::values::SpecValue;
use crate::values::lemma_entries_of_props;
use crate::values::lemma_values_of_props;
use crate::values::spec_entries_of;
use crate::values::spec_values_of;

verus! {

broadcast use vstd::std_specs::vec::axiom_vec_index_decreases;

/// What probing a native number object yields: its type tag's integrality,
/// and its readings as a 64-bit signed integer and as a 64-bit float.
#[derive(Debug)]
pub struct CfNumber {
    pub is_int_type: bool,
    pub as_int: Option<i64>,
    pub as_float: Option<Real64>,
}

/// Mathematical model of a `CfNumber`.
pub struct SpecCfNumber {
    pub is_int_type: bool,
    pub as_int: Option<i64>,
    pub as_float: Option<SpecReal>,
}

impl View for CfNumber {
    type V = SpecCfNumber;

    open spec fn view(&self) -> SpecCfNumber {
        SpecCfNumber {
            is_int_type: self.is_int_type,
            as_int: self.as_int,
            as_float: match self.as_float {
                Some(r) => Some(r@),
                None => None,
            },
        }
    }
}

/// A value as the native preference service presents it.
#[derive(Debug)]
pub enum CfObject {
    String(String),
    /// One of the service's two boolean sentinels, compared by tag.
    Boolean(bool),
    Number(CfNumber),
    Array(Vec<CfObject>),
    Dictionary(Vec<(String, CfObject)>),
    Data(Vec<u8>),
    Date(Real64),
    Url(String),
    Uuid(String),
    /// Any native kind outside the set the conversion layer recognizes.
    Unsupported,
}

/// Mathematical model of a `CfObject`.
pub enum SpecCf {
    Str(Seq<char>),
    Bool(bool),
    Num(SpecCfNumber),
    Arr(Seq<SpecCf>),
    Dict(Seq<(Seq<char>, SpecCf)>),
    Bytes(Seq<u8>),
    Date(SpecReal),
    Url(Seq<char>),
    Uuid(Seq<char>),
    Unsupported,
}

/// Model of a single native object.
pub open spec fn spec_cf_of(c: CfObject) -> SpecCf
    decreases c,
{
    match c {
        CfObject::String(s) => SpecCf::Str(s@),
        CfObject::Boolean(b) => SpecCf::Bool(b),
        CfObject::Number(n) => SpecCf::Num(n@),
        CfObject::Array(items) => {
            proof {
                assert(decreases_to!(c => items));
                assert(decreases_to!(items => items@));
            }
            SpecCf::Arr(spec_cfs_of(items@))
        },
        CfObject::Dictionary(entries) => {
            proof {
                assert(decreases_to!(c => entries));
                assert(decreases_to!(entries => entries@));
            }
            SpecCf::Dict(spec_cf_entries_of(entries@))
        },
        CfObject::Data(bytes) => SpecCf::Bytes(bytes@),
        CfObject::Date(r) => SpecCf::Date(r@),
        CfObject::Url(s) => SpecCf::Url(s@),
        CfObject::Uuid(s) => SpecCf::Uuid(s@),
        CfObject::Unsupported => SpecCf::Unsupported,
    }
}

/// Model of a sequence of native objects, element by element.
pub open spec fn spec_cfs_of(s: Seq<CfObject>) -> Seq<SpecCf>
    decreases s,
{
    if s.len() == 0 {
        Seq::empty()
    } else {
        seq![spec_cf_of(s[0])] + spec_cfs_of(s.subrange(1, s.len() as int))
    }
}

/// Model of a sequence of native dictionary entries, entry by entry.
pub open spec fn spec_cf_entries_of(s: Seq<(String, CfObject)>) -> Seq<(Seq<char>, SpecCf)>
    decreases s,
{
    if s.len() == 0 {
        Seq::empty()
    } else {
        seq![(s[0].0@, spec_cf_of(s[0].1))] + spec_cf_entries_of(s.subrange(1, s.len() as int))
    }
}

impl View for CfObject {
    type V = SpecCf;

    open spec fn view(&self) -> SpecCf {
        spec_cf_of(*self)
    }
}

/// `spec_cfs_of` maps the sequence element by element.
pub broadcast proof fn lemma_cfs_of_props(s: Seq<CfObject>)
    ensures
        (#[trigger] spec_cfs_of(s)).len() == s.len(),
        forall|i: int| 0 <= i < s.len() ==> spec_cfs_of(s)[i] == spec_cf_of(s[i]),
    decreases s,
{
    if s.len() > 0 {
        lemma_cfs_of_props(s.subrange(1, s.len() as int));
        assert forall|i: int| 0 <= i < s.len() implies spec_cfs_of(s)[i] == spec_cf_of(s[i]) by {
            if i > 0 {
                assert(s.subrange(1, s.len() as int)[i - 1] == s[i]);
            }
        }
    }
}

/// `spec_cf_entries_of` maps the sequence entry by entry.
pub broadcast proof fn lemma_cf_entries_of_props(s: Seq<(String, CfObject)>)
    ensures
        (#[trigger] spec_cf_entries_of(s)).len() == s.len(),
        forall|i: int|
            0 <= i < s.len() ==> spec_cf_entries_of(s)[i] == (s[i].0@, spec_cf_of(s[i].1)),
    decreases s,
{
    if s.len() > 0 {
        lemma_cf_entries_of_props(s.subrange(1, s.len() as int));
        assert forall|i: int|
            0 <= i < s.len() implies spec_cf_entries_of(s)[i] == (s[i].0@, spec_cf_of(s[i].1)) by {
            if i > 0 {
                assert(s.subrange(1, s.len() as int)[i - 1] == s[i]);
            }
        }
    }
}

/// What a probed native number reads as: `Integer` only when the integer
/// probe succeeded and the type tag is integral, else the float reading,
/// else nothing.
pub open spec fn spec_cfnumber_to_pref(n: SpecCfNumber) -> Option<SpecValue> {
    if n.as_int is Some && n.is_int_type {
        Some(SpecValue::Int(n.as_int->0))
    } else if n.as_float is Some {
        Some(SpecValue::Real(n.as_float->0))
    } else {
        None
    }
}

/// What a native object reads as.  Number probes that yield nothing, and
/// native kinds outside the recognized set, degrade to placeholder
/// strings rather than errors.
pub open spec fn spec_cf_to_pref(c: SpecCf) -> SpecValue
    decreases c,
{
    match c {
        SpecCf::Str(s) => SpecValue::Str(s),
        SpecCf::Bool(b) => SpecValue::Bool(b),
        SpecCf::Num(n) => match spec_cfnumber_to_pref(n) {
            Some(v) => v,
            None => SpecValue::Str("<invalid number>"@),
        },
        SpecCf::Arr(items) => SpecValue::Arr(spec_cfs_to_prefs(items)),
        SpecCf::Dict(es) => SpecValue::Dict(spec_cf_entries_to_prefs(es)),
        SpecCf::Bytes(d) => SpecValue::Bytes(d),
        SpecCf::Date(r) => SpecValue::Date(r),
        SpecCf::Url(s) => SpecValue::Url(s),
        SpecCf::Uuid(s) => SpecValue::Uuid(s),
        SpecCf::Unsupported => SpecValue::Str("<unsupported CF type>"@),
    }
}

/// Element-by-element form of `spec_cf_to_pref` on arrays.
pub open spec fn spec_cfs_to_prefs(s: Seq<SpecCf>) -> Seq<SpecValue>
    decreases s,
{
    if s.len() == 0 {
        Seq::empty()
    } else {
        seq![spec_cf_to_pref(s[0])] + spec_cfs_to_prefs(s.subrange(1, s.len() as int))
    }
}

/// Entry-by-entry form of `spec_cf_to_pref` on dictionaries.
pub open spec fn spec_cf_entries_to_prefs(s: Seq<(Seq<char>, SpecCf)>) -> Seq<
    (Seq<char>, SpecValue),
>
    decreases s,
{
    if s.len() == 0 {
        Seq::empty()
    } else {
        seq![(s[0].0, spec_cf_to_pref(s[0].1))] + spec_cf_entries_to_prefs(
            s.subrange(1, s.len() as int),
        )
    }
}

/// What a preference value writes into the native service.  A `Uid`
/// crosses as an integral number; one beyond the signed 64-bit range
/// yields a number whose probes both fail and reads back as the number
/// placeholder.
pub open spec fn spec_pref_to_cf(v: SpecValue) -> SpecCf
    decreases v,
{
    match v {
        SpecValue::Str(s) => SpecCf::Str(s),
        SpecValue::Int(i) => SpecCf::Num(
            SpecCfNumber { is_int_type: true, as_int: Some(i), as_float: None },
        ),
        SpecValue::Real(r) => SpecCf::Num(
            SpecCfNumber { is_int_type: false, as_int: None, as_float: Some(r) },
        ),
        SpecValue::Bool(b) => SpecCf::Bool(b),
        SpecValue::Arr(items) => SpecCf::Arr(spec_prefs_to_cfs(items)),
        SpecValue::Dict(es) => SpecCf::Dict(spec_pref_entries_to_cfs(es)),
        SpecValue::Bytes(d) => SpecCf::Bytes(d),
        SpecValue::Date(r) => SpecCf::Date(r),
        SpecValue::Url(s) => SpecCf::Url(s),
        SpecValue::Uuid(s) => SpecCf::Uuid(s),
        SpecValue::Uid(u) => SpecCf::Num(
            SpecCfNumber {
                is_int_type: true,
                as_int: if u <= i64::MAX as u64 {
                    Some(u as i64)
                } else {
                    None
                },
                as_float: None,
            },
        ),
    }
}

/// Element-by-element form of `spec_pref_to_cf` on arrays.
pub open spec fn spec_prefs_to_cfs(s: Seq<SpecValue>) -> Seq<SpecCf>
    decreases s,
{
    if s.len() == 0 {
        Seq::empty()
    } else {
        seq![spec_pref_to_cf(s[0])] + spec_prefs_to_cfs(s.subrange(1, s.len() as int))
    }
}

/// Entry-by-entry form of `spec_pref_to_cf` on dictionaries.
pub open spec fn spec_pref_entries_to_cfs(s: Seq<(Seq<char>, SpecValue)>) -> Seq<
    (Seq<char>, SpecCf),
>
    decreases s,
{
    if s.len() == 0 {
        Seq::empty()
    } else {
        seq![(s[0].0, spec_pref_to_cf(s[0].1))] + spec_pref_entries_to_cfs(
            s.subrange(1, s.len() as int),
        )
    }
}

/// `spec_cfs_to_prefs` maps element by element.
pub broadcast proof fn lemma_cfs_to_prefs_props(s: Seq<SpecCf>)
    ensures
        (#[trigger] spec_cfs_to_prefs(s)).len() == s.len(),
        forall|i: int| 0 <= i < s.len() ==> spec_cfs_to_prefs(s)[i] == spec_cf_to_pref(s[i]),
    decreases s,
{
    if s.len() > 0 {
        lemma_cfs_to_prefs_props(s.subrange(1, s.len() as int));
        assert forall|i: int|
            0 <= i < s.len() implies spec_cfs_to_prefs(s)[i] == spec_cf_to_pref(s[i]) by {
            if i > 0 {
                assert(s.subrange(1, s.len() as int)[i - 1] == s[i]);
            }
        }
    }
}

/// `spec_cf_entries_to_prefs` maps entry by entry.
pub broadcast proof fn lemma_cf_entries_to_prefs_props(s: Seq<(Seq<char>, SpecCf)>)
    ensures
        (#[trigger] spec_cf_entries_to_prefs(s)).len() == s.len(),
        forall|i: int|
            0 <= i < s.len() ==> spec_cf_entries_to_prefs(s)[i] == (
                s[i].0,
                spec_cf_to_pref(s[i].1),
            ),
    decreases s,
{
    if s.len() > 0 {
        lemma_cf_entries_to_prefs_props(s.subrange(1, s.len() as int));
        assert forall|i: int|
            0 <= i < s.len() implies spec_cf_entries_to_prefs(s)[i] == (
            s[i].0,
            spec_cf_to_pref(s[i].1),
        ) by {
            if i > 0 {
                assert(s.subrange(1, s.len() as int)[i - 1] == s[i]);
            }
        }
    }
}

/// `spec_prefs_to_cfs` maps element by element.
pub broadcast proof fn lemma_prefs_to_cfs_props(s: Seq<SpecValue>)
    ensures
        (#[trigger] spec_prefs_to_cfs(s)).len() == s.len(),
        forall|i: int| 0 <= i < s.len() ==> spec_prefs_to_cfs(s)[i] == spec_pref_to_cf(s[i]),
    decreases s,
{
    if s.len() > 0 {
        lemma_prefs_to_cfs_props(s.subrange(1, s.len() as int));
        assert forall|i: int|
            0 <= i < s.len() implies spec_prefs_to_cfs(s)[i] == spec_pref_to_cf(s[i]) by {
            if i > 0 {
                assert(s.subrange(1, s.len() as int)[i - 1] == s[i]);
            }
        }
    }
}

/// `spec_pref_entries_to_cfs` maps entry by entry.
pub broadcast proof fn lemma_pref_entries_to_cfs_props(s: Seq<(Seq<char>, SpecValue)>)
    ensures
        (#[trigger] spec_pref_entries_to_cfs(s)).len() == s.len(),
        forall|i: int|
            0 <= i < s.len() ==> spec_pref_entries_to_cfs(s)[i] == (
                s[i].0,
                spec_pref_to_cf(s[i].1),
            ),
    decreases s,
{
    if s.len() > 0 {
        lemma_pref_entries_to_cfs_props(s.subrange(1, s.len() as int));
        assert forall|i: int|
            0 <= i < s.len() implies spec_pref_entries_to_cfs(s)[i] == (
            s[i].0,
            spec_pref_to_cf(s[i].1),
        ) by {
            if i > 0 {
                assert(s.subrange(1, s.len() as int)[i - 1] == s[i]);
            }
        }
    }
}

/// Read a probed native number as a preference value, if either probe
/// succeeded.
pub fn cfnumber_to_pref(n: &CfNumber) -> (r: Option<PrefValue>)
    ensures
        match r {
            Some(v) => spec_cfnumber_to_pref(n@) == Some(v@),
            None => spec_cfnumber_to_pref(n@) == None::<SpecValue>,
        },
{
    if n.is_int_type {
        if let Some(i) = n.as_int {
            return Some(PrefValue::Integer(i));
        }
    }
    match &n.as_float {
        Some(r) => Some(PrefValue::Float(r.deep_clone())),
        None => None,
    }
}

/// Read a native object as a preference value.
#[verifier::loop_isolation(false)]
pub fn cf_to_pref(c: &CfObject) -> (r: PrefValue)
    ensures
        r@ == spec_cf_to_pref(c@),
    decreases c,
{
    broadcast use
        lemma_values_of_props,
        lemma_entries_of_props,
        lemma_cfs_of_props,
        lemma_cf_entries_of_props,
        lemma_cfs_to_prefs_props,
        lemma_cf_entries_to_prefs_props;

    match c {
        CfObject::String(s) => PrefValue::String(s.clone()),
        CfObject::Boolean(b) => PrefValue::Boolean(*b),
        CfObject::Number(n) => match cfnumber_to_pref(n) {
            Some(v) => v,
            None => PrefValue::String("<invalid number>".to_owned()),
        },
        CfObject::Array(items) => {
            let mut out: Vec<PrefValue> = Vec::new();
            let n_items = items.len();
            for k in 0..n_items
                invariant
                    out.len() == k,
                    forall|j: int| 0 <= j < k ==> out@[j]@ == spec_cf_to_pref(items@[j]@),
                decreases n_items - k,
            {
                proof {
                    assert(decreases_to!(c => items));
                    assert(decreases_to!(items => items@));
                    assert(decreases_to!(items@ => items@[k as int]));
                }
                out.push(cf_to_pref(&items[k]));
            }
            proof {
                assert(spec_values_of(out@) =~= spec_cfs_to_prefs(spec_cfs_of(items@)));
            }
            PrefValue::Array(out)
        },
        CfObject::Dictionary(entries) => {
            let mut out: Vec<(String, PrefValue)> = Vec::new();
            let n_entries = entries.len();
            for k in 0..n_entries
                invariant
                    out.len() == k,
                    forall|j: int|
                        0 <= j < k ==> out@[j].0@ == entries@[j].0@ && out@[j].1@
                            == spec_cf_to_pref(entries@[j].1@),
                decreases n_entries - k,
            {
                proof {
                    assert(decreases_to!(c => entries));
                    assert(decreases_to!(entries => entries@));
                    assert(decreases_to!(entries@ => entries@[k as int]));
                    assert(decreases_to!(entries@[k as int] => entries@[k as int].1));
                }
                let e = &entries[k];
                out.push((e.0.clone(), cf_to_pref(&e.1)));
            }
            proof {
                assert(spec_entries_of(out@) =~= spec_cf_entries_to_prefs(
                    spec_cf_entries_of(entries@),
                ));
            }
            PrefValue::Dictionary(out)
        },
        CfObject::Data(bytes) => {
            let mut out: Vec<u8> = Vec::new();
            let n_bytes = bytes.len();
            for k in 0..n_bytes
                invariant
                    out.len() == k,
                    forall|j: int| 0 <= j < k ==> out@[j] == bytes@[j],
                decreases n_bytes - k,
            {
                out.push(bytes[k]);
            }
            proof {
                assert(out@ =~= bytes@);
            }
            PrefValue::Data(out)
        },
        CfObject::Date(r) => PrefValue::Date(r.deep_clone()),
        CfObject::Url(s) => PrefValue::Url(s.clone()),
        CfObject::Uuid(s) => PrefValue::Uuid(s.clone()),
        CfObject::Unsupported => PrefValue::String("<unsupported CF type>".to_owned()),
    }
}

/// Write a preference value as a native object.
#[verifier::loop_isolation(false)]
pub fn pref_to_cf(v: &PrefValue) -> (r: CfObject)
    ensures
        r@ == spec_pref_to_cf(v@),
    decreases v,
{
    broadcast use
        lemma_values_of_props,
        lemma_entries_of_props,
        lemma_cfs_of_props,
        lemma_cf_entries_of_props,
        lemma_prefs_to_cfs_props,
        lemma_pref_entries_to_cfs_props;

    match v {
        PrefValue::String(s) => CfObject::String(s.clone()),
        PrefValue::Integer(i) => CfObject::Number(
            CfNumber { is_int_type: true, as_int: Some(*i), as_float: None },
        ),
        PrefValue::Float(r) => CfObject::Number(
            CfNumber { is_int_type: false, as_int: None, as_float: Some(r.deep_clone()) },
        ),
        PrefValue::Boolean(b) => CfObject::Boolean(*b),
        PrefValue::Array(items) => {
            let mut out: Vec<CfObject> = Vec::new();
            let n_items = items.len();
            for k in 0..n_items
                invariant
                    out.len() == k,
                    forall|j: int| 0 <= j < k ==> out@[j]@ == spec_pref_to_cf(items@[j]@),
                decreases n_items - k,
            {
                proof {
                    assert(decreases_to!(v => items));
                    assert(decreases_to!(items => items@));
                    assert(decreases_to!(items@ => items@[k as int]));
                }
                out.push(pref_to_cf(&items[k]));
            }
            proof {
                assert(spec_cfs_of(out@) =~= spec_prefs_to_cfs(spec_values_of(items@)));
            }
            CfObject::Array(out)
        },
        PrefValue::Dictionary(entries) => {
            let mut out: Vec<(String, CfObject)> = Vec::new();
            let n_entries = entries.len();
            for k in 0..n_entries
                invariant
                    out.len() == k,
                    forall|j: int|
                        0 <= j < k ==> out@[j].0@ == entries@[j].0@ && out@[j].1@
                            == spec_pref_to_cf(entries@[j].1@),
                decreases n_entries - k,
            {
                proof {
                    assert(decreases_to!(v => entries));
                    assert(decreases_to!(entries => entries@));
                    assert(decreases_to!(entries@ => entries@[k as int]));
                    assert(decreases_to!(entries@[k as int] => entries@[k as int].1));
                }
                let e = &entries[k];
                out.push((e.0.clone(), pref_to_cf(&e.1)));
            }
            proof {
                assert(spec_cf_entries_of(out@) =~= spec_pref_entries_to_cfs(
                    spec_entries_of(entries@),
                ));
            }
            CfObject::Dictionary(out)
        },
        PrefValue::Data(bytes) => {
            let mut out: Vec<u8> = Vec::new();
            let n_bytes = bytes.len();
            for k in 0..n_bytes
                invariant
                    out.len() == k,
                    forall|j: int| 0 <= j < k ==> out@[j] == bytes@[j],
                decreases n_bytes - k,
            {
                out.push(bytes[k]);
            }
            proof {
                assert(out@ =~= bytes@);
            }
            CfObject::Data(out)
        },
        PrefValue::Date(r) => CfObject::Date(r.deep_clone()),
        PrefValue::Url(s) => CfObject::Url(s.clone()),
        PrefValue::Uuid(s) => CfObject::Uuid(s.clone()),
        PrefValue::Uid(u) => {
            let as_int: Option<i64> = if *u <= i64::MAX as u64 {
                Some(*u as i64)
            } else {
                None
            };
            CfObject::Number(CfNumber { is_int_type: true, as_int, as_float: None })
        },
    }
}

/// The kinds the native layer carries losslessly in both directions:
/// everything but `Uid`, which reads back as a plain integer.
pub open spec fn spec_native_lossless(v: SpecValue) -> bool
    decreases v,
{
    match v {
        SpecValue::Arr(items) => spec_values_lossless(items),
        SpecValue::Dict(es) => spec_entries_lossless(es),
        SpecValue::Uid(_) => false,
        _ => true,
    }
}

/// Losslessness of a sequence of values, element by element.
pub open spec fn spec_values_lossless(s: Seq<SpecValue>) -> bool
    decreases s,
{
    if s.len() == 0 {
        true
    } else {
        spec_native_lossless(s[0]) && spec_values_lossless(s.subrange(1, s.len() as int))
    }
}

/// Losslessness of a sequence of entries, entry by entry.
pub open spec fn spec_entries_lossless(s: Seq<(Seq<char>, SpecValue)>) -> bool
    decreases s,
{
    if s.len() == 0 {
        true
    } else {
        spec_native_lossless(s[0].1) && spec_entries_lossless(s.subrange(1, s.len() as int))
    }
}

/// Round trip through the native representation: every value made of the
/// lossless kinds (strings, integers, floats, booleans, arrays,
/// dictionaries, and the directly-carried data, date, url and uuid
/// leaves) reads back unchanged after being written out.
pub proof fn lemma_native_round_trip(v: SpecValue)
    requires
        spec_native_lossless(v),
    ensures
        spec_cf_to_pref(spec_pref_to_cf(v)) == v,
    decreases v,
{
    match v {
        SpecValue::Arr(items) => {
            lemma_native_round_trip_values(items);
        },
        SpecValue::Dict(es) => {
            lemma_native_round_trip_entries(es);
        },
        _ => {},
    }
}

/// Round trip over a sequence of values.
pub proof fn lemma_native_round_trip_values(s: Seq<SpecValue>)
    requires
        spec_values_lossless(s),
    ensures
        spec_cfs_to_prefs(spec_prefs_to_cfs(s)) == s,
    decreases s,
{
    broadcast use lemma_prefs_to_cfs_props, lemma_cfs_to_prefs_props;

    if s.len() == 0 {
        assert(spec_cfs_to_prefs(spec_prefs_to_cfs(s)) =~= s);
    } else {
        let tail = s.subrange(1, s.len() as int);
        lemma_native_round_trip(s[0]);
        lemma_native_round_trip_values(tail);
        assert forall|i: int|
            0 <= i < s.len() implies spec_cfs_to_prefs(spec_prefs_to_cfs(s))[i] == s[i] by {
            if i > 0 {
                assert(spec_cfs_to_prefs(spec_prefs_to_cfs(tail))[i - 1] == tail[i - 1]);
                assert(tail[i - 1] == s[i]);
            }
        }
        assert(spec_cfs_to_prefs(spec_prefs_to_cfs(s)) =~= s);
    }
}

/// Round trip over a sequence of dictionary entries.
pub proof fn lemma_native_round_trip_entries(s: Seq<(Seq<char>, SpecValue)>)
    requires
        spec_entries_lossless(s),
    ensures
        spec_cf_entries_to_prefs(spec_pref_entries_to_cfs(s)) == s,
    decreases s,
{
    broadcast use lemma_pref_entries_to_cfs_props, lemma_cf_entries_to_prefs_props;

    if s.len() == 0 {
        assert(spec_cf_entries_to_prefs(spec_pref_entries_to_cfs(s)) =~= s);
    } else {
        let tail = s.subrange(1, s.len() as int);
        lemma_native_round_trip(s[0].1);
        lemma_native_round_trip_entries(tail);
        assert forall|i: int|
            0 <= i < s.len() implies spec_cf_entries_to_prefs(spec_pref_entries_to_cfs(s))[i]
            == s[i] by {
            if i > 0 {
                assert(spec_cf_entries_to_prefs(spec_pref_entries_to_cfs(tail))[i - 1] == tail[i
                    - 1]);
                assert(tail[i - 1] == s[i]);
            }
        }
        assert(spec_cf_entries_to_prefs(spec_pref_entries_to_cfs(s)) =~= s);
    }
}

} // verus!
