//! The typed value model: every value a preference domain can store.

use vstd::prelude::*;

verus! {

broadcast use vstd::std_specs::vec::axiom_vec_index_decreases;

/// A 64-bit binary floating-point payload, held as its raw bit pattern
/// together with its rendered decimal form.  The arithmetic and formatting
/// that produce the two fields happen at the I/O boundary; the verified
/// core only carries them.
#[derive(Debug)]
pub struct Real64 {
    pub bits: u64,
    pub text: String,
}

/// Mathematical model of a `Real64`.
pub struct SpecReal {
    pub bits: u64,
    pub text: Seq<char>,
}

impl View for Real64 {
    type V = SpecReal;

    open spec fn view(&self) -> SpecReal {
        SpecReal { bits: self.bits, text: self.text@ }
    }
}

/// A preference value: the closed tagged union of every storable kind.
///
/// Dictionaries keep their entries in insertion order and hold each key at
/// most once; see [`spec_value_wf`].
#[derive(Debug)]
pub enum PrefValue {
    String(String),
    Integer(i64),
    Float(Real64),
    Boolean(bool),
    Array(Vec<PrefValue>),
    Dictionary(Vec<(String, PrefValue)>),
    Data(Vec<u8>),
    Date(Real64),
    Url(String),
    Uuid(String),
    Uid(u64),
}

/// Mathematical model of a `PrefValue`.
pub enum SpecValue {
    Str(Seq<char>),
    Int(i64),
    Real(SpecReal),
    Bool(bool),
    Arr(Seq<SpecValue>),
    Dict(Seq<(Seq<char>, SpecValue)>),
    Bytes(Seq<u8>),
    Date(SpecReal),
    Url(Seq<char>),
    Uuid(Seq<char>),
    Uid(u64),
}

/// Model of a single value.
pub open spec fn spec_value_of(v: PrefValue) -> SpecValue
    decreases v,
{
    match v {
        PrefValue::String(s) => SpecValue::Str(s@),
        PrefValue::Integer(i) => SpecValue::Int(i),
        PrefValue::Float(r) => SpecValue::Real(r@),
        PrefValue::Boolean(b) => SpecValue::Bool(b),
        PrefValue::Array(items) => {
            proof {
                assert(decreases_to!(v => items));
                assert(decreases_to!(items => items@));
            }
            SpecValue::Arr(spec_values_of(items@))
        },
        PrefValue::Dictionary(entries) => {
            proof {
                assert(decreases_to!(v => entries));
                assert(decreases_to!(entries => entries@));
            }
            SpecValue::Dict(spec_entries_of(entries@))
        },
        PrefValue::Data(bytes) => SpecValue::Bytes(bytes@),
        PrefValue::Date(r) => SpecValue::Date(r@),
        PrefValue::Url(s) => SpecValue::Url(s@),
        PrefValue::Uuid(s) => SpecValue::Uuid(s@),
        PrefValue::Uid(u) => SpecValue::Uid(u),
    }
}

/// Model of a sequence of values, element by element.
pub open spec fn spec_values_of(s: Seq<PrefValue>) -> Seq<SpecValue>
    decreases s,
{
    if s.len() == 0 {
        Seq::empty()
    } else {
        seq![spec_value_of(s[0])] + spec_values_of(s.subrange(1, s.len() as int))
    }
}

/// Model of a sequence of dictionary entries, element by element.
pub open spec fn spec_entries_of(s: Seq<(String, PrefValue)>) -> Seq<(Seq<char>, SpecValue)>
    decreases s,
{
    if s.len() == 0 {
        Seq::empty()
    } else {
        seq![(s[0].0@, spec_value_of(s[0].1))] + spec_entries_of(s.subrange(1, s.len() as int))
    }
}

impl View for PrefValue {
    type V = SpecValue;

    open spec fn view(&self) -> SpecValue {
        spec_value_of(*self)
    }
}

/// No key occurs twice among dictionary entries.
pub open spec fn dict_keys_unique(es: Seq<(Seq<char>, SpecValue)>) -> bool {
    forall|i: int, j: int| 0 <= i < j < es.len() ==> es[i].0 != es[j].0
}

/// Well-formedness: every dictionary in the tree holds each key at most once.
pub open spec fn spec_value_wf(v: SpecValue) -> bool
    decreases v,
{
    match v {
        SpecValue::Arr(items) => spec_values_wf(items),
        SpecValue::Dict(es) => dict_keys_unique(es) && spec_entries_wf(es),
        _ => true,
    }
}

/// Well-formedness of a sequence of values, element by element.
pub open spec fn spec_values_wf(s: Seq<SpecValue>) -> bool
    decreases s,
{
    if s.len() == 0 {
        true
    } else {
        spec_value_wf(s[0]) && spec_values_wf(s.subrange(1, s.len() as int))
    }
}

/// Well-formedness of a sequence of dictionary entries, element by element.
pub open spec fn spec_entries_wf(s: Seq<(Seq<char>, SpecValue)>) -> bool
    decreases s,
{
    if s.len() == 0 {
        true
    } else {
        spec_value_wf(s[0].1) && spec_entries_wf(s.subrange(1, s.len() as int))
    }
}

/// `spec_values_of` maps the sequence element by element.
pub broadcast proof fn lemma_values_of_props(s: Seq<PrefValue>)
    ensures
        (#[trigger] spec_values_of(s)).len() == s.len(),
        forall|i: int| 0 <= i < s.len() ==> spec_values_of(s)[i] == spec_value_of(s[i]),
    decreases s,
{
    if s.len() > 0 {
        lemma_values_of_props(s.subrange(1, s.len() as int));
        assert forall|i: int| 0 <= i < s.len() implies spec_values_of(s)[i] == spec_value_of(
            s[i],
        ) by {
            if i > 0 {
                assert(s.subrange(1, s.len() as int)[i - 1] == s[i]);
            }
        }
    }
}

/// `spec_entries_of` maps the sequence entry by entry.
pub broadcast proof fn lemma_entries_of_props(s: Seq<(String, PrefValue)>)
    ensures
        (#[trigger] spec_entries_of(s)).len() == s.len(),
        forall|i: int|
            0 <= i < s.len() ==> spec_entries_of(s)[i] == (s[i].0@, spec_value_of(s[i].1)),
    decreases s,
{
    if s.len() > 0 {
        lemma_entries_of_props(s.subrange(1, s.len() as int));
        assert forall|i: int|
            0 <= i < s.len() implies spec_entries_of(s)[i] == (s[i].0@, spec_value_of(s[i].1)) by {
            if i > 0 {
                assert(s.subrange(1, s.len() as int)[i - 1] == s[i]);
            }
        }
    }
}

/// `spec_values_wf` holds exactly when every element is well formed.
pub broadcast proof fn lemma_values_wf_iff(s: Seq<SpecValue>)
    ensures
        #[trigger] spec_values_wf(s) <==> (forall|i: int|
            0 <= i < s.len() ==> spec_value_wf(#[trigger] s[i])),
    decreases s,
{
    if s.len() > 0 {
        lemma_values_wf_iff(s.subrange(1, s.len() as int));
        assert forall|i: int| 0 <= i < s.len() && spec_values_wf(s) implies spec_value_wf(
            s[i],
        ) by {
            if i > 0 {
                assert(s.subrange(1, s.len() as int)[i - 1] == s[i]);
            }
        }
        if forall|i: int| 0 <= i < s.len() ==> spec_value_wf(#[trigger] s[i]) {
            assert forall|i: int|
                0 <= i < s.subrange(1, s.len() as int).len() implies spec_value_wf(
                #[trigger] s.subrange(1, s.len() as int)[i],
            ) by {
                assert(s.subrange(1, s.len() as int)[i] == s[i + 1]);
            }
        }
    }
}

/// `spec_entries_wf` holds exactly when every entry's value is well formed.
pub broadcast proof fn lemma_entries_wf_iff(s: Seq<(Seq<char>, SpecValue)>)
    ensures
        #[trigger] spec_entries_wf(s) <==> (forall|i: int|
            0 <= i < s.len() ==> spec_value_wf((#[trigger] s[i]).1)),
    decreases s,
{
    if s.len() > 0 {
        lemma_entries_wf_iff(s.subrange(1, s.len() as int));
        assert forall|i: int| 0 <= i < s.len() && spec_entries_wf(s) implies spec_value_wf(
            s[i].1,
        ) by {
            if i > 0 {
                assert(s.subrange(1, s.len() as int)[i - 1] == s[i]);
            }
        }
        if forall|i: int| 0 <= i < s.len() ==> spec_value_wf((#[trigger] s[i]).1) {
            assert forall|i: int|
                0 <= i < s.subrange(1, s.len() as int).len() implies spec_value_wf(
                (#[trigger] s.subrange(1, s.len() as int)[i]).1,
            ) by {
                assert(s.subrange(1, s.len() as int)[i] == s[i + 1]);
            }
        }
    }
}

impl PrefValue {
    /// Check this value's well-formedness: every dictionary in the tree
    /// holds each key at most once.
    #[verifier::loop_isolation(false)]
    pub fn is_wf(&self) -> (r: bool)
        ensures
            r == spec_value_wf(self@),
        decreases self,
    {
        broadcast use lemma_values_of_props, lemma_entries_of_props;

        match self {
            PrefValue::Array(items) => {
                let ghost vs = spec_values_of(items@);
                let n = items.len();
                for k in 0..n
                    invariant
                        forall|j: int| 0 <= j < k ==> spec_value_wf(#[trigger] vs[j]),
                    decreases n - k,
                {
                    proof {
                        assert(decreases_to!(self => items));
                        assert(decreases_to!(items => items@));
                        assert(decreases_to!(items@ => items@[k as int]));
                    }
                    if !items[k].is_wf() {
                        proof {
                            assert(!spec_value_wf(vs[k as int]));
                            lemma_values_wf_iff(vs);
                        }
                        return false;
                    }
                }
                proof {
                    lemma_values_wf_iff(vs);
                }
                true
            },
            PrefValue::Dictionary(entries) => {
                if crate::dict::dict_has_duplicate_keys(entries) {
                    return false;
                }
                let ghost es = spec_entries_of(entries@);
                let n = entries.len();
                for k in 0..n
                    invariant
                        forall|j: int| 0 <= j < k ==> spec_value_wf((#[trigger] es[j]).1),
                    decreases n - k,
                {
                    proof {
                        assert(decreases_to!(self => entries));
                        assert(decreases_to!(entries => entries@));
                        assert(decreases_to!(entries@ => entries@[k as int]));
                        assert(decreases_to!(entries@[k as int] => entries@[k as int].1));
                    }
                    if !entries[k].1.is_wf() {
                        proof {
                            assert(!spec_value_wf(es[k as int].1));
                            lemma_entries_wf_iff(es);
                        }
                        return false;
                    }
                }
                proof {
                    lemma_entries_wf_iff(es);
                }
                true
            },
            _ => true,
        }
    }
}

impl Default for PrefValue {
    /// The default value: the empty string.
    fn default() -> (r: PrefValue)
        ensures
            r@ == SpecValue::Str(Seq::<char>::empty()),
    {
        PrefValue::String(String::new())
    }
}

impl Real64 {
    /// A copy of this payload, bit pattern and text alike.
    pub fn deep_clone(&self) -> (r: Real64)
        ensures
            r@ == self@,
    {
        Real64 { bits: self.bits, text: self.text.clone() }
    }
}

impl PrefValue {
    /// A structural copy of this value, equal to it in the model.
    #[verifier::loop_isolation(false)]
    pub fn deep_clone(&self) -> (r: PrefValue)
        ensures
            r@ == self@,
        decreases self,
    {
        broadcast use lemma_values_of_props, lemma_entries_of_props;

        match self {
            PrefValue::String(s) => PrefValue::String(s.clone()),
            PrefValue::Integer(i) => PrefValue::Integer(*i),
            PrefValue::Float(r) => PrefValue::Float(r.deep_clone()),
            PrefValue::Boolean(b) => PrefValue::Boolean(*b),
            PrefValue::Array(items) => {
                let mut out: Vec<PrefValue> = Vec::new();
                let n = items.len();
                for k in 0..n
                    invariant
                        n == items.len(),
                        out.len() == k,
                        forall|j: int| 0 <= j < k ==> out@[j]@ == items@[j]@,
                    decreases n - k,
                {
                    proof {
                        assert(decreases_to!(self => items));
                        assert(decreases_to!(items => items@));
                        assert(decreases_to!(items@ => items@[k as int]));
                    }
                    out.push(items[k].deep_clone());
                }
                proof {
                    assert(spec_values_of(out@) =~= spec_values_of(items@));
                }
                PrefValue::Array(out)
            },
            PrefValue::Dictionary(entries) => {
                let mut out: Vec<(String, PrefValue)> = Vec::new();
                let n = entries.len();
                for k in 0..n
                    invariant
                        n == entries.len(),
                        out.len() == k,
                        forall|j: int|
                            0 <= j < k ==> out@[j].0@ == entries@[j].0@ && out@[j].1@
                                == entries@[j].1@,
                    decreases n - k,
                {
                    proof {
                        assert(decreases_to!(self => entries));
                        assert(decreases_to!(entries => entries@));
                        assert(decreases_to!(entries@ => entries@[k as int]));
                        assert(decreases_to!(entries@[k as int] => entries@[k as int].1));
                    }
                    let e = &entries[k];
                    out.push((e.0.clone(), e.1.deep_clone()));
                }
                proof {
                    assert(spec_entries_of(out@) =~= spec_entries_of(entries@));
                }
                PrefValue::Dictionary(out)
            },
            PrefValue::Data(bytes) => {
                let mut out: Vec<u8> = Vec::new();
                let n = bytes.len();
                for k in 0..n
                    invariant
                        n == bytes.len(),
                        out.len() == k,
                        forall|j: int| 0 <= j < k ==> out@[j] == bytes@[j],
                    decreases n - k,
                {
                    out.push(bytes[k]);
                }
                proof {
                    assert(out@ =~= bytes@);
                }
                PrefValue::Data(out)
            },
            PrefValue::Date(r) => PrefValue::Date(r.deep_clone()),
            PrefValue::Url(s) => PrefValue::Url(s.clone()),
            PrefValue::Uuid(s) => PrefValue::Uuid(s.clone()),
            PrefValue::Uid(u) => PrefValue::Uid(*u),
        }
    }
}

impl PrefValue {
    /// The stable lowercase tag naming this value's kind.
    pub fn get_type(&self) -> (r: &'static str)
        ensures
            r@ == self@.type_tag(),
    {
        match self {
            PrefValue::String(_) => "string",
            PrefValue::Integer(_) => "integer",
            PrefValue::Float(_) => "float",
            PrefValue::Boolean(_) => "boolean",
            PrefValue::Array(_) => "array",
            PrefValue::Dictionary(_) => "dictionary",
            PrefValue::Data(_) => "data",
            PrefValue::Date(_) => "date",
            PrefValue::Url(_) => "url",
            PrefValue::Uuid(_) => "uuid",
            PrefValue::Uid(_) => "uid",
        }
    }

    /// Same tag as `get_type`, under the name the batch API uses.
    pub fn kind_name(&self) -> (r: &'static str)
        ensures
            r@ == self@.type_tag(),
    {
        self.get_type()
    }
}

impl SpecValue {
    /// The tag `get_type` returns for a value with this model.
    pub open spec fn type_tag(self) -> Seq<char> {
        match self {
            SpecValue::Str(_) => "string"@,
            SpecValue::Int(_) => "integer"@,
            SpecValue::Real(_) => "float"@,
            SpecValue::Bool(_) => "boolean"@,
            SpecValue::Arr(_) => "array"@,
            SpecValue::Dict(_) => "dictionary"@,
            SpecValue::Bytes(_) => "data"@,
            SpecValue::Date(_) => "date"@,
            SpecValue::Url(_) => "url"@,
            SpecValue::Uuid(_) => "uuid"@,
            SpecValue::Uid(_) => "uid"@,
        }
    }
}

} // verus!
