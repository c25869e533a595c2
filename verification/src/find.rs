//! Case-insensitive search through value trees.
//!
//! A match is found where a dictionary key, or the rendered text of a
//! leaf value, contains the search word.  Paths into the tree are dotted
//! for dictionary keys and bracketed for array positions; a match on a
//! key reports the path ending in that key, with the value rendered
//! beside it.

use vstd::prelude::*;
use vstd::string::StringExecFns;

use crate::render::spec_render;
use crate::text::contains_word;
use crate::text::lower_of;
use crate::text::spec_dec_rep;
use crate::text::spec_is_substring;
use crate::text::usize_to_string;
use crate::values::PrefValue;
use crate::values::SpecValue;
use crate::values::lemma_entries_of_props;
use crate::values::lemma_values_of_props;
use crate::values::spec_entries_of;
use crate::values::spec_values_of;

verus! {

/// Result of a find operation: where the match sits, and the matched
/// value's rendered text.
#[derive(Debug)]
pub struct FindMatch {
    pub key_path: String,
    pub value: String,
}

impl View for FindMatch {
    type V = (Seq<char>, Seq<char>);

    open spec fn view(&self) -> (Seq<char>, Seq<char>) {
        (self.key_path@, self.value@)
    }
}

/// Model of a list of matches.
pub open spec fn matches_view(s: Seq<FindMatch>) -> Seq<(Seq<char>, Seq<char>)>
    decreases s,
{
    if s.len() == 0 {
        Seq::empty()
    } else {
        seq![s[0]@] + matches_view(s.subrange(1, s.len() as int))
    }
}

/// `matches_view` maps the sequence element by element.
pub broadcast proof fn lemma_matches_view_props(s: Seq<FindMatch>)
    ensures
        (#[trigger] matches_view(s)).len() == s.len(),
        forall|i: int| 0 <= i < s.len() ==> matches_view(s)[i] == s[i]@,
    decreases s,
{
    if s.len() > 0 {
        lemma_matches_view_props(s.subrange(1, s.len() as int));
        assert forall|i: int| 0 <= i < s.len() implies matches_view(s)[i] == s[i]@ by {
            if i > 0 {
                assert(s.subrange(1, s.len() as int)[i - 1] == s[i]);
            }
        }
    }
}

/// The path of a dictionary child: the key itself at the root, else the
/// parent path, a dot, and the key.
pub open spec fn spec_child_path(path: Seq<char>, key: Seq<char>) -> Seq<char> {
    if path.len() == 0 {
        key
    } else {
        path + "."@ + key
    }
}

/// The path of an array element: the parent path with the index in
/// brackets.
pub open spec fn spec_index_path(path: Seq<char>, idx: nat) -> Seq<char> {
    path + "["@ + spec_dec_rep(idx) + "]"@
}

/// The matches the search word finds in a value at a path: recursion
/// into dictionaries and arrays, and a match at every leaf whose
/// lowercase rendering contains the word.
pub open spec fn spec_find_in(v: SpecValue, word: Seq<char>, path: Seq<char>) -> Seq<
    (Seq<char>, Seq<char>),
>
    decreases v,
{
    match v {
        SpecValue::Dict(es) => spec_find_entries(es, word, path),
        SpecValue::Arr(items) => spec_find_items(items, word, path, 0),
        _ => if spec_is_substring(lower_of(spec_render(v)), word) {
            seq![(path, spec_render(v))]
        } else {
            Seq::empty()
        },
    }
}

/// The matches in a run of dictionary entries: for each entry, a match
/// on the key itself when its lowercase form contains the word, then the
/// matches inside the entry's value.
pub open spec fn spec_find_entries(
    es: Seq<(Seq<char>, SpecValue)>,
    word: Seq<char>,
    path: Seq<char>,
) -> Seq<(Seq<char>, Seq<char>)>
    decreases es,
{
    if es.len() == 0 {
        Seq::empty()
    } else {
        let child = spec_child_path(path, es[0].0);
        (if spec_is_substring(lower_of(es[0].0), word) {
            seq![(child, spec_render(es[0].1))]
        } else {
            Seq::empty()
        }) + spec_find_in(es[0].1, word, child) + spec_find_entries(
            es.subrange(1, es.len() as int),
            word,
            path,
        )
    }
}

/// The matches in a run of array elements, positions counted from `idx`.
pub open spec fn spec_find_items(
    items: Seq<SpecValue>,
    word: Seq<char>,
    path: Seq<char>,
    idx: nat,
) -> Seq<(Seq<char>, Seq<char>)>
    decreases items,
{
    if items.len() == 0 {
        Seq::empty()
    } else {
        spec_find_in(items[0], word, spec_index_path(path, idx)) + spec_find_items(
            items.subrange(1, items.len() as int),
            word,
            path,
            idx + 1,
        )
    }
}

/// Search a value, appending every match to `matches`.  `word_lower` is
/// the search word already folded to lowercase.
#[verifier::loop_isolation(false)]
#[verifier::rlimit(100)]
pub fn find_in_value(
    val: &PrefValue,
    word_lower: &str,
    key_path: String,
    matches: &mut Vec<FindMatch>,
)
    ensures
        matches_view(final(matches)@) == matches_view(old(matches)@) + spec_find_in(
            val@,
            word_lower@,
            key_path@,
        ),
    decreases val,
{
    broadcast use lemma_matches_view_props, lemma_values_of_props, lemma_entries_of_props;

    let ghost mv0 = matches_view(matches@);
    match val {
        PrefValue::Dictionary(entries) => {
            let ghost es = spec_entries_of(entries@);
            let n = entries.len();
            proof {
                assert(es.subrange(0, n as int) =~= es);
                assert(matches_view(matches@) + spec_find_entries(es, word_lower@, key_path@)
                    =~= mv0 + spec_find_entries(
                    es.subrange(0, n as int),
                    word_lower@,
                    key_path@,
                ));
            }
            for k in 0..n
                invariant
                    mv0 + spec_find_entries(es, word_lower@, key_path@) == matches_view(matches@)
                        + spec_find_entries(
                        es.subrange(k as int, n as int),
                        word_lower@,
                        key_path@,
                    ),
                decreases n - k,
            {
                proof {
                    assert(decreases_to!(val => entries));
                    assert(decreases_to!(entries => entries@));
                    assert(decreases_to!(entries@ => entries@[k as int]));
                    assert(decreases_to!(entries@[k as int] => entries@[k as int].1));
                }
                let e = &entries[k];
                let new_key_path = if key_path.unicode_len() == 0 {
                    e.0.clone()
                } else {
                    key_path.clone().concat(".").concat(e.0.as_str())
                };
                let ghost rest = es.subrange(k as int, n as int);
                proof {
                    assert(rest[0] == es[k as int]);
                    assert(rest.subrange(1, rest.len() as int) =~= es.subrange(
                        k + 1,
                        n as int,
                    ));
                }
                if contains_word(e.0.as_str(), word_lower) {
                    let m = FindMatch {
                        key_path: new_key_path.clone(),
                        value: e.1.to_text(),
                    };
                    let ghost mv_pre = matches_view(matches@);
                    matches.push(m);
                    proof {
                        assert(matches_view(matches@) =~= mv_pre.push(m@));
                        assert(mv_pre.push(m@) =~= mv_pre + seq![m@]);
                    }
                }
                find_in_value(&e.1, word_lower, new_key_path, matches);
            }
            proof {
                assert(es.subrange(n as int, n as int) =~= Seq::<(Seq<char>, SpecValue)>::empty());
                assert(matches_view(matches@) + Seq::<(Seq<char>, Seq<char>)>::empty()
                    =~= matches_view(matches@));
            }
        },
        PrefValue::Array(items) => {
            let ghost vs = spec_values_of(items@);
            let n = items.len();
            proof {
                assert(vs.subrange(0, n as int) =~= vs);
                assert(matches_view(matches@) + spec_find_items(vs, word_lower@, key_path@, 0)
                    =~= mv0 + spec_find_items(
                    vs.subrange(0, n as int),
                    word_lower@,
                    key_path@,
                    0,
                ));
            }
            for k in 0..n
                invariant
                    mv0 + spec_find_items(vs, word_lower@, key_path@, 0) == matches_view(matches@)
                        + spec_find_items(
                        vs.subrange(k as int, n as int),
                        word_lower@,
                        key_path@,
                        k as nat,
                    ),
                decreases n - k,
            {
                proof {
                    assert(decreases_to!(val => items));
                    assert(decreases_to!(items => items@));
                    assert(decreases_to!(items@ => items@[k as int]));
                }
                let new_key_path = key_path
                    .clone()
                    .concat("[")
                    .concat(usize_to_string(k).as_str())
                    .concat("]");
                let ghost rest = vs.subrange(k as int, n as int);
                proof {
                    assert(rest[0] == vs[k as int]);
                    assert(rest.subrange(1, rest.len() as int) =~= vs.subrange(
                        k + 1,
                        n as int,
                    ));
                }
                find_in_value(&items[k], word_lower, new_key_path, matches);
            }
            proof {
                assert(vs.subrange(n as int, n as int) =~= Seq::<SpecValue>::empty());
                assert(matches_view(matches@) + Seq::<(Seq<char>, Seq<char>)>::empty()
                    =~= matches_view(matches@));
            }
        },
        _ => {
            let text = val.to_text();
            if contains_word(text.as_str(), word_lower) {
                let m = FindMatch { key_path, value: text };
                let ghost mv_pre = matches_view(matches@);
                matches.push(m);
                proof {
                    assert(matches_view(matches@) =~= mv_pre.push(m@));
                    assert(mv_pre.push(m@) =~= mv_pre + seq![m@]);
                }
            } else {
                proof {
                    assert(matches_view(matches@) =~= mv0 + Seq::<(Seq<char>, Seq<char>)>::empty());
                }
            }
        },
    }
}

} // verus!
