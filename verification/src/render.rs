//! Rendering preference values as text: the plain recursive form used by
//! search and diagnostics, and the indented Apple-style form used for
//! terminal display.

use vstd::prelude::*;
use vstd::string::StrSliceExecFns;
use vstd::string::StringExecFns;

use crate::text::alnum_char;
use crate::text::char_is_alphanumeric;
use crate::text::i64_to_string;
use crate::text::spec_dec_rep;
use crate::text::spec_dec_rep_signed;
use crate::text::u64_to_string;
use crate::text::usize_to_string;
use crate::values::PrefValue;
use crate::values::SpecValue;
use crate::values::lemma_entries_of_props;
use crate::values::lemma_values_of_props;

verus! {

/// The plain text form of a value: scalars as themselves, containers
/// recursively in brackets and braces, payload kinds in tagged angle
/// brackets.  A float or date renders as the text carried with it.
pub open spec fn spec_render(v: SpecValue) -> Seq<char>
    decreases v,
{
    match v {
        SpecValue::Str(s) => s,
        SpecValue::Int(i) => spec_dec_rep_signed(i as int),
        SpecValue::Real(r) => r.text,
        SpecValue::Bool(b) => if b {
            "true"@
        } else {
            "false"@
        },
        SpecValue::Arr(items) => "["@ + spec_render_list(items) + "]"@,
        SpecValue::Dict(es) => "{"@ + spec_render_entries(es) + "}"@,
        SpecValue::Bytes(d) => "<Data: length "@ + spec_dec_rep(d.len()) + " bytes>"@,
        SpecValue::Date(r) => "<Date: "@ + r.text + ">"@,
        SpecValue::Url(s) => "<Url: "@ + s + ">"@,
        SpecValue::Uuid(s) => "<Uuid: "@ + s + ">"@,
        SpecValue::Uid(u) => "<Uid: "@ + spec_dec_rep(u as nat) + ">"@,
    }
}

/// Array elements joined with a comma and a space.
pub open spec fn spec_render_list(items: Seq<SpecValue>) -> Seq<char>
    decreases items,
{
    if items.len() == 0 {
        Seq::empty()
    } else if items.len() == 1 {
        spec_render(items[0])
    } else {
        spec_render(items[0]) + ", "@ + spec_render_list(items.subrange(1, items.len() as int))
    }
}

/// Dictionary entries joined with a comma and a space, each as
/// `key: value`.
pub open spec fn spec_render_entries(es: Seq<(Seq<char>, SpecValue)>) -> Seq<char>
    decreases es,
{
    if es.len() == 0 {
        Seq::empty()
    } else if es.len() == 1 {
        es[0].0 + ": "@ + spec_render(es[0].1)
    } else {
        es[0].0 + ": "@ + spec_render(es[0].1) + ", "@ + spec_render_entries(
            es.subrange(1, es.len() as int),
        )
    }
}

impl PrefValue {
    /// Render this value in its plain text form.
    #[verifier::loop_isolation(false)]
    #[verifier::rlimit(60)]
    pub fn to_text(&self) -> (r: String)
        ensures
            r@ == spec_render(self@),
        decreases self,
    {
        broadcast use lemma_values_of_props, lemma_entries_of_props;

        match self {
            PrefValue::String(s) => s.clone(),
            PrefValue::Integer(i) => i64_to_string(*i),
            PrefValue::Float(r) => r.text.clone(),
            PrefValue::Boolean(b) => if *b {
                "true".to_owned()
            } else {
                "false".to_owned()
            },
            PrefValue::Array(items) => {
                let mut out = "[".to_owned();
                let n = items.len();
                for k in 0..n
                    invariant
                        out@ == "["@ + spec_render_list_prefix(
                            crate::values::spec_values_of(items@),
                            k as int,
                        ),
                    decreases n - k,
                {
                    proof {
                        assert(decreases_to!(self => items));
                        assert(decreases_to!(items => items@));
                        assert(decreases_to!(items@ => items@[k as int]));
                    }
                    if k > 0 {
                        out = out.concat(", ");
                    }
                    let piece = items[k].to_text();
                    out = out.concat(piece.as_str());
                    proof {
                        lemma_render_list_prefix_step(
                            crate::values::spec_values_of(items@),
                            k as int,
                        );
                    }
                }
                proof {
                    lemma_render_list_prefix_full(crate::values::spec_values_of(items@));
                }
                out.concat("]")
            },
            PrefValue::Dictionary(entries) => {
                let mut out = "{".to_owned();
                let n = entries.len();
                for k in 0..n
                    invariant
                        out@ == "{"@ + spec_render_entries_prefix(
                            crate::values::spec_entries_of(entries@),
                            k as int,
                        ),
                    decreases n - k,
                {
                    proof {
                        assert(decreases_to!(self => entries));
                        assert(decreases_to!(entries => entries@));
                        assert(decreases_to!(entries@ => entries@[k as int]));
                        assert(decreases_to!(entries@[k as int] => entries@[k as int].1));
                    }
                    if k > 0 {
                        out = out.concat(", ");
                    }
                    let e = &entries[k];
                    out = out.concat(e.0.as_str()).concat(": ");
                    let piece = e.1.to_text();
                    out = out.concat(piece.as_str());
                    proof {
                        lemma_render_entries_prefix_step(
                            crate::values::spec_entries_of(entries@),
                            k as int,
                        );
                    }
                }
                proof {
                    lemma_render_entries_prefix_full(crate::values::spec_entries_of(entries@));
                }
                out.concat("}")
            },
            PrefValue::Data(d) => "<Data: length "
                .to_owned()
                .concat(usize_to_string(d.len()).as_str())
                .concat(" bytes>"),
            PrefValue::Date(r) => "<Date: ".to_owned().concat(r.text.as_str()).concat(">"),
            PrefValue::Url(s) => "<Url: ".to_owned().concat(s.as_str()).concat(">"),
            PrefValue::Uuid(s) => "<Uuid: ".to_owned().concat(s.as_str()).concat(">"),
            PrefValue::Uid(u) => "<Uid: ".to_owned().concat(u64_to_string(*u).as_str()).concat(
                ">",
            ),
        }
    }
}

/// The rendering of the first `k` array elements, separators included.
pub open spec fn spec_render_list_prefix(items: Seq<SpecValue>, k: int) -> Seq<char>
    decreases k,
{
    if k <= 0 {
        Seq::empty()
    } else if k == 1 {
        spec_render(items[0])
    } else {
        spec_render_list_prefix(items, k - 1) + ", "@ + spec_render(items[k - 1])
    }
}

/// Extending a prefix rendering by one element.
pub proof fn lemma_render_list_prefix_step(items: Seq<SpecValue>, k: int)
    requires
        0 <= k,
    ensures
        spec_render_list_prefix(items, k + 1) == if k == 0 {
            spec_render_list_prefix(items, 0) + spec_render(items[0])
        } else {
            spec_render_list_prefix(items, k) + ", "@ + spec_render(items[k])
        },
{
    if k == 0 {
        assert(spec_render_list_prefix(items, 1) == spec_render(items[0]));
        assert(Seq::<char>::empty() + spec_render(items[0]) =~= spec_render(items[0]));
    }
}

/// The full prefix rendering is the joined rendering.
pub proof fn lemma_render_list_prefix_full(items: Seq<SpecValue>)
    ensures
        spec_render_list_prefix(items, items.len() as int) == spec_render_list(items),
    decreases items.len(),
{
    let n = items.len() as int;
    if n > 1 {
        let head = items.subrange(0, n - 1);
        lemma_render_list_prefix_head(items, n - 1);
        lemma_render_list_prefix_full(head);
        lemma_render_list_suffix(items);
        assert(items[n - 1] == items.last());
    }
}

/// A prefix rendering only reads the elements before `k`.
pub proof fn lemma_render_list_prefix_head(items: Seq<SpecValue>, k: int)
    requires
        0 <= k <= items.len(),
    ensures
        spec_render_list_prefix(items, k) == spec_render_list_prefix(
            items.subrange(0, k),
            k,
        ),
    decreases k,
{
    if k > 0 {
        lemma_render_list_prefix_head(items, k - 1);
        assert(items.subrange(0, k - 1) =~= items.subrange(0, k).subrange(0, k - 1));
        lemma_render_list_prefix_head(items.subrange(0, k), k - 1);
        assert(items.subrange(0, k)[k - 1] == items[k - 1]);
    }
}

/// The joined rendering grows one element at a time at the back.
pub proof fn lemma_render_list_suffix(items: Seq<SpecValue>)
    requires
        items.len() >= 1,
    ensures
        spec_render_list(items) == if items.len() == 1 {
            spec_render(items[0])
        } else {
            spec_render_list(items.subrange(0, items.len() - 1)) + ", "@ + spec_render(
                items.last(),
            )
        },
    decreases items.len(),
{
    let n = items.len() as int;
    if n > 1 {
        let tail = items.subrange(1, n);
        lemma_render_list_suffix(tail);
        assert(tail.last() == items.last());
        if n == 2 {
            assert(items.subrange(0, 1).len() == 1);
            assert(items.subrange(0, 1)[0] == items[0]);
            assert(tail.len() == 1);
            assert(tail[0] == items[1]);
        } else {
            assert(tail.subrange(0, tail.len() - 1) =~= items.subrange(0, n - 1).subrange(
                1,
                n - 1,
            ));
            assert(items.subrange(0, n - 1)[0] == items[0]);
            assert(items.subrange(0, n - 1).len() > 1);
        }
    }
}

/// The rendering of the first `k` dictionary entries.
pub open spec fn spec_render_entries_prefix(es: Seq<(Seq<char>, SpecValue)>, k: int) -> Seq<char>
    decreases k,
{
    if k <= 0 {
        Seq::empty()
    } else if k == 1 {
        es[0].0 + ": "@ + spec_render(es[0].1)
    } else {
        spec_render_entries_prefix(es, k - 1) + ", "@ + es[k - 1].0 + ": "@ + spec_render(
            es[k - 1].1,
        )
    }
}

/// Extending an entry-prefix rendering by one entry.
pub proof fn lemma_render_entries_prefix_step(es: Seq<(Seq<char>, SpecValue)>, k: int)
    requires
        0 <= k,
    ensures
        spec_render_entries_prefix(es, k + 1) == if k == 0 {
            spec_render_entries_prefix(es, 0) + es[0].0 + ": "@ + spec_render(es[0].1)
        } else {
            spec_render_entries_prefix(es, k) + ", "@ + es[k].0 + ": "@ + spec_render(es[k].1)
        },
{
    if k == 0 {
        assert(Seq::<char>::empty() + es[0].0 + ": "@ + spec_render(es[0].1) =~= es[0].0 + ": "@
            + spec_render(es[0].1));
    }
}

/// The full entry-prefix rendering is the joined rendering.
pub proof fn lemma_render_entries_prefix_full(es: Seq<(Seq<char>, SpecValue)>)
    ensures
        spec_render_entries_prefix(es, es.len() as int) == spec_render_entries(es),
    decreases es.len(),
{
    let n = es.len() as int;
    if n > 1 {
        let head = es.subrange(0, n - 1);
        lemma_render_entries_prefix_head(es, n - 1);
        lemma_render_entries_prefix_full(head);
        lemma_render_entries_suffix(es);
        assert(es[n - 1] == es.last());
    }
}

/// An entry-prefix rendering only reads the entries before `k`.
pub proof fn lemma_render_entries_prefix_head(es: Seq<(Seq<char>, SpecValue)>, k: int)
    requires
        0 <= k <= es.len(),
    ensures
        spec_render_entries_prefix(es, k) == spec_render_entries_prefix(es.subrange(0, k), k),
    decreases k,
{
    if k > 0 {
        lemma_render_entries_prefix_head(es, k - 1);
        assert(es.subrange(0, k - 1) =~= es.subrange(0, k).subrange(0, k - 1));
        lemma_render_entries_prefix_head(es.subrange(0, k), k - 1);
        assert(es.subrange(0, k)[k - 1] == es[k - 1]);
    }
}

/// The joined entry rendering grows one entry at a time at the back.
pub proof fn lemma_render_entries_suffix(es: Seq<(Seq<char>, SpecValue)>)
    requires
        es.len() >= 1,
    ensures
        spec_render_entries(es) == if es.len() == 1 {
            es[0].0 + ": "@ + spec_render(es[0].1)
        } else {
            spec_render_entries(es.subrange(0, es.len() - 1)) + ", "@ + es.last().0 + ": "@
                + spec_render(es.last().1)
        },
    decreases es.len(),
{
    let n = es.len() as int;
    if n > 1 {
        let tail = es.subrange(1, n);
        lemma_render_entries_suffix(tail);
        assert(tail.last() == es.last());
        if n == 2 {
            assert(es.subrange(0, 1).len() == 1);
            assert(es.subrange(0, 1)[0] == es[0]);
            assert(tail.len() == 1);
            assert(tail[0] == es[1]);
        } else {
            assert(tail.subrange(0, tail.len() - 1) =~= es.subrange(0, n - 1).subrange(1, n - 1));
            assert(es.subrange(0, n - 1)[0] == es[0]);
            assert(es.subrange(0, n - 1).len() > 1);
        }
    }
}

/// The height of a value tree: one for a leaf, one more than the
/// tallest child for a container.
pub open spec fn spec_height(v: SpecValue) -> nat
    decreases v,
{
    match v {
        SpecValue::Arr(items) => 1 + spec_heights(items),
        SpecValue::Dict(es) => 1 + spec_entry_heights(es),
        _ => 1,
    }
}

/// The tallest height among a run of values.
pub open spec fn spec_heights(s: Seq<SpecValue>) -> nat
    decreases s,
{
    if s.len() == 0 {
        0
    } else {
        let h0 = spec_height(s[0]);
        let hr = spec_heights(s.subrange(1, s.len() as int));
        if h0 >= hr {
            h0
        } else {
            hr
        }
    }
}

/// The tallest height among a run of entries' values.
pub open spec fn spec_entry_heights(s: Seq<(Seq<char>, SpecValue)>) -> nat
    decreases s,
{
    if s.len() == 0 {
        0
    } else {
        let h0 = spec_height(s[0].1);
        let hr = spec_entry_heights(s.subrange(1, s.len() as int));
        if h0 >= hr {
            h0
        } else {
            hr
        }
    }
}

/// Every element's height is bounded by the run's.
pub proof fn lemma_heights_bound(s: Seq<SpecValue>, i: int)
    requires
        0 <= i < s.len(),
    ensures
        spec_height(s[i]) <= spec_heights(s),
    decreases s,
{
    if i > 0 {
        let tail = s.subrange(1, s.len() as int);
        assert(tail[i - 1] == s[i]);
        lemma_heights_bound(tail, i - 1);
    }
}

/// Every entry value's height is bounded by the run's.
pub proof fn lemma_entry_heights_bound(s: Seq<(Seq<char>, SpecValue)>, i: int)
    requires
        0 <= i < s.len(),
    ensures
        spec_height(s[i].1) <= spec_entry_heights(s),
    decreases s,
{
    if i > 0 {
        let tail = s.subrange(1, s.len() as int);
        assert(tail[i - 1] == s[i]);
        lemma_entry_heights_bound(tail, i - 1);
    }
}

/// Whether a name can stand unquoted in Apple-style output.
pub open spec fn spec_plain_name(s: Seq<char>) -> bool {
    forall|i: int| 0 <= i < s.len() ==> alnum_char(#[trigger] s[i]) || s[i] == '-' || s[i] == '_'
}

/// A name with every inner quote escaped.
pub open spec fn spec_escaped(s: Seq<char>) -> Seq<char>
    decreases s,
{
    if s.len() == 0 {
        Seq::empty()
    } else {
        (if s[0] == '"' {
            seq!['\\', '"']
        } else {
            seq![s[0]]
        }) + spec_escaped(s.subrange(1, s.len() as int))
    }
}

/// The quoted form of a name: unchanged when it is plain, else wrapped
/// in double quotes with inner quotes escaped.
pub open spec fn spec_quoted(s: Seq<char>) -> Seq<char> {
    if spec_plain_name(s) {
        s
    } else {
        "\""@ + spec_escaped(s) + "\""@
    }
}

/// Escaping grows one character at a time at the back.
pub proof fn lemma_escaped_snoc(s: Seq<char>, i: int)
    requires
        0 <= i < s.len(),
    ensures
        spec_escaped(s.subrange(0, i + 1)) == spec_escaped(s.subrange(0, i)) + (if s[i] == '"' {
            seq!['\\', '"']
        } else {
            seq![s[i]]
        }),
    decreases i,
{
    let a = s.subrange(0, i + 1);
    if i == 0 {
        let piece: Seq<char> = if s[0] == '"' {
            seq!['\\', '"']
        } else {
            seq![s[0]]
        };
        assert(a.len() == 1);
        assert(a[0] == s[0]);
        let at = a.subrange(1, a.len() as int);
        assert(at =~= Seq::<char>::empty());
        assert(spec_escaped(at) == Seq::<char>::empty());
        assert(spec_escaped(a) =~= piece);
        assert(s.subrange(0, 0) =~= Seq::<char>::empty());
        assert(spec_escaped(s.subrange(0, 0)) == Seq::<char>::empty());
        assert(spec_escaped(s.subrange(0, 0)) + piece =~= piece);
    } else {
        let b = s.subrange(0, i);
        assert(a[0] == s[0]);
        assert(b[0] == s[0]);
        let s1 = s.subrange(1, s.len() as int);
        assert(a.subrange(1, a.len() as int) =~= s1.subrange(0, i));
        assert(b.subrange(1, b.len() as int) =~= s1.subrange(0, i - 1));
        assert(s1[i - 1] == s[i]);
        lemma_escaped_snoc(s1, i - 1);
    }
}

/// Escape every double quote in a name.
fn escape_quotes(s: &str) -> (r: String)
    ensures
        r@ == spec_escaped(s@),
{
    let n = s.unicode_len();
    let mut out = String::new();
    proof {
        assert(spec_escaped(s@.subrange(0, 0)) =~= Seq::<char>::empty());
    }
    for i in 0..n
        invariant
            n == s@.len(),
            out@ == spec_escaped(s@.subrange(0, i as int)),
        decreases n - i,
    {
        if s.get_char(i) == '"' {
            proof {
                reveal_strlit("\\\"");
            }
            out = out.concat("\\\"");
        } else {
            let piece = s.substring_char(i, i + 1);
            proof {
                assert(piece@ =~= seq![s@[i as int]]);
            }
            out = out.concat(piece);
        }
        proof {
            lemma_escaped_snoc(s@, i as int);
        }
    }
    proof {
        assert(s@.subrange(0, n as int) =~= s@);
    }
    out
}

/// Whether every character of a name is plain.
fn is_plain_name(s: &str) -> (r: bool)
    ensures
        r == spec_plain_name(s@),
{
    let n = s.unicode_len();
    for i in 0..n
        invariant
            n == s@.len(),
            forall|j: int| 0 <= j < i ==> alnum_char(#[trigger] s@[j]) || s@[j] == '-' || s@[j]
                == '_',
        decreases n - i,
    {
        let c = s.get_char(i);
        if !(char_is_alphanumeric(c) || c == '-' || c == '_') {
            return false;
        }
    }
    true
}

/// Quotes a key for Apple-style output: plain names stand bare, others
/// are double-quoted with inner quotes escaped.
pub fn quote_key(key: &str) -> (r: String)
    ensures
        r@ == spec_quoted(key@),
{
    if is_plain_name(key) {
        key.to_owned()
    } else {
        proof {
            reveal_strlit("\"");
        }
        "\"".to_owned().concat(escape_quotes(key).as_str()).concat("\"")
    }
}

/// Quotes a string value for Apple-style output, by the same rule keys
/// follow.
pub fn quote_string(s: &str) -> (r: String)
    ensures
        r@ == spec_quoted(s@),
{
    quote_key(s)
}

/// Four spaces per indentation level.
pub open spec fn spec_indent(n: nat) -> Seq<char>
    decreases n,
{
    if n == 0 {
        Seq::empty()
    } else {
        spec_indent((n - 1) as nat) + "    "@
    }
}

/// Build the indentation for one level.
pub fn indent_str(n: usize) -> (r: String)
    ensures
        r@ == spec_indent(n as nat),
{
    let mut out = String::new();
    for i in 0..n
        invariant
            out@ == spec_indent(i as nat),
        decreases n - i,
    {
        out = out.concat("    ");
    }
    out
}

/// The uppercase hexadecimal digit character for one digit value.
pub open spec fn spec_hex_digit(d: nat) -> char {
    if d < 10 {
        crate::text::spec_digit_char(d)
    } else if d == 10 {
        'A'
    } else if d == 11 {
        'B'
    } else if d == 12 {
        'C'
    } else if d == 13 {
        'D'
    } else if d == 14 {
        'E'
    } else {
        'F'
    }
}

/// One byte as `0x` and two uppercase hexadecimal digits.
pub open spec fn spec_hex_byte(b: u8) -> Seq<char> {
    "0x"@ + seq![spec_hex_digit((b / 16) as nat), spec_hex_digit((b % 16) as nat)]
}

/// One hexadecimal digit as a borrowed string.
fn hex_digit_str(d: u8) -> (r: &'static str)
    requires
        d < 16,
    ensures
        r@ == seq![spec_hex_digit(d as nat)],
{
    proof {
        reveal_strlit("0");
        reveal_strlit("1");
        reveal_strlit("2");
        reveal_strlit("3");
        reveal_strlit("4");
        reveal_strlit("5");
        reveal_strlit("6");
        reveal_strlit("7");
        reveal_strlit("8");
        reveal_strlit("9");
        reveal_strlit("A");
        reveal_strlit("B");
        reveal_strlit("C");
        reveal_strlit("D");
        reveal_strlit("E");
        reveal_strlit("F");
    }
    if d == 0 {
        "0"
    } else if d == 1 {
        "1"
    } else if d == 2 {
        "2"
    } else if d == 3 {
        "3"
    } else if d == 4 {
        "4"
    } else if d == 5 {
        "5"
    } else if d == 6 {
        "6"
    } else if d == 7 {
        "7"
    } else if d == 8 {
        "8"
    } else if d == 9 {
        "9"
    } else if d == 10 {
        "A"
    } else if d == 11 {
        "B"
    } else if d == 12 {
        "C"
    } else if d == 13 {
        "D"
    } else if d == 14 {
        "E"
    } else {
        "F"
    }
}

/// One byte rendered in hexadecimal.
fn hex_byte_str(b: u8) -> (r: String)
    ensures
        r@ == spec_hex_byte(b),
{
    proof {
        reveal_strlit("0x");
    }
    "0x".to_owned().concat(hex_digit_str(b / 16)).concat(hex_digit_str(b % 16))
}

/// The first `k` bytes rendered in hexadecimal, joined with a comma and
/// a space.
pub open spec fn spec_hex_preview(d: Seq<u8>, k: int) -> Seq<char>
    decreases k,
{
    if k <= 0 {
        Seq::empty()
    } else if k == 1 {
        spec_hex_byte(d[0])
    } else {
        spec_hex_preview(d, k - 1) + ", "@ + spec_hex_byte(d[k - 1])
    }
}

/// How many bytes the data preview shows: at most five.
pub open spec fn spec_preview_len(n: nat) -> int {
    if n <= 5 {
        n as int
    } else {
        5
    }
}

/// The indented Apple-style rendering of a value: dictionaries brace
/// their entries as `key = value;` lines, arrays parenthesize their
/// elements as `value,` lines, strings are quoted, booleans print as
/// `1` and `0`, data previews its length and first bytes, and the other
/// kinds keep their plain text form.
pub open spec fn spec_prettify(v: SpecValue, ind: nat) -> Seq<char>
    decreases v,
{
    match v {
        SpecValue::Dict(es) => "{\n"@ + spec_pretty_entries(es, ind + 1) + spec_indent(ind)
            + "}"@,
        SpecValue::Arr(items) => "(\n"@ + spec_pretty_items(items, ind + 1) + spec_indent(ind)
            + ")"@,
        SpecValue::Str(s) => spec_quoted(s),
        SpecValue::Bool(b) => if b {
            "1"@
        } else {
            "0"@
        },
        SpecValue::Bytes(d) => "<length = "@ + spec_dec_rep(d.len()) + ", bytes = ["@
            + spec_hex_preview(d, spec_preview_len(d.len())) + "...]>"@,
        SpecValue::Url(s) => "<URL: "@ + s + ">"@,
        SpecValue::Uuid(s) => "<UUID: "@ + s + ">"@,
        SpecValue::Uid(u) => "<UID: "@ + spec_dec_rep(u as nat) + ">"@,
        _ => spec_render(v),
    }
}

/// Dictionary entries as indented `key = value;` lines.
pub open spec fn spec_pretty_entries(es: Seq<(Seq<char>, SpecValue)>, ind: nat) -> Seq<char>
    decreases es,
{
    if es.len() == 0 {
        Seq::empty()
    } else {
        spec_indent(ind) + spec_quoted(es[0].0) + " = "@ + spec_prettify(es[0].1, ind) + ";\n"@
            + spec_pretty_entries(es.subrange(1, es.len() as int), ind)
    }
}

/// Array elements as indented `value,` lines.
pub open spec fn spec_pretty_items(items: Seq<SpecValue>, ind: nat) -> Seq<char>
    decreases items,
{
    if items.len() == 0 {
        Seq::empty()
    } else {
        spec_indent(ind) + spec_prettify(items[0], ind) + ",\n"@ + spec_pretty_items(
            items.subrange(1, items.len() as int),
            ind,
        )
    }
}

/// Prettify a value for display: the indented Apple-style form.
#[verifier::loop_isolation(false)]
#[verifier::rlimit(100)]
pub fn prettify(val: &PrefValue, indent: usize) -> (r: String)
    requires
        indent + spec_height(val@) <= usize::MAX,
    ensures
        r@ == spec_prettify(val@, indent as nat),
    decreases val,
{
    broadcast use lemma_values_of_props, lemma_entries_of_props;

    match val {
        PrefValue::Dictionary(entries) => {
            let ghost es = crate::values::spec_entries_of(entries@);
            let ghost ind2 = (indent + 1) as nat;
            let mut out = "{\n".to_owned();
            let n = entries.len();
            proof {
                assert(es.subrange(0, n as int) =~= es);
            }
            for k in 0..n
                invariant
                    out@ + spec_pretty_entries(es.subrange(k as int, n as int), ind2) == "{\n"@
                        + spec_pretty_entries(es, ind2),
                decreases n - k,
            {
                proof {
                    assert(decreases_to!(val => entries));
                    assert(decreases_to!(entries => entries@));
                    assert(decreases_to!(entries@ => entries@[k as int]));
                    assert(decreases_to!(entries@[k as int] => entries@[k as int].1));
                    lemma_entry_heights_bound(es, k as int);
                }
                let ghost rest = es.subrange(k as int, n as int);
                proof {
                    assert(rest[0] == es[k as int]);
                    assert(rest.subrange(1, rest.len() as int) =~= es.subrange(
                        k + 1,
                        n as int,
                    ));
                }
                let e = &entries[k];
                out = out.concat(indent_str(indent + 1).as_str());
                out = out.concat(quote_key(e.0.as_str()).as_str());
                out = out.concat(" = ");
                out = out.concat(prettify(&e.1, indent + 1).as_str());
                out = out.concat(";\n");
            }
            proof {
                assert(es.subrange(n as int, n as int) =~= Seq::<(Seq<char>, SpecValue)>::empty());
                assert(out@ + Seq::<char>::empty() =~= out@);
            }
            out.concat(indent_str(indent).as_str()).concat("}")
        },
        PrefValue::Array(items) => {
            let ghost vs = crate::values::spec_values_of(items@);
            let ghost ind2 = (indent + 1) as nat;
            let mut out = "(\n".to_owned();
            let n = items.len();
            proof {
                assert(vs.subrange(0, n as int) =~= vs);
            }
            for k in 0..n
                invariant
                    out@ + spec_pretty_items(vs.subrange(k as int, n as int), ind2) == "(\n"@
                        + spec_pretty_items(vs, ind2),
                decreases n - k,
            {
                proof {
                    assert(decreases_to!(val => items));
                    assert(decreases_to!(items => items@));
                    assert(decreases_to!(items@ => items@[k as int]));
                    lemma_heights_bound(vs, k as int);
                }
                let ghost rest = vs.subrange(k as int, n as int);
                proof {
                    assert(rest[0] == vs[k as int]);
                    assert(rest.subrange(1, rest.len() as int) =~= vs.subrange(
                        k + 1,
                        n as int,
                    ));
                }
                out = out.concat(indent_str(indent + 1).as_str());
                out = out.concat(prettify(&items[k], indent + 1).as_str());
                out = out.concat(",\n");
            }
            proof {
                assert(vs.subrange(n as int, n as int) =~= Seq::<SpecValue>::empty());
                assert(out@ + Seq::<char>::empty() =~= out@);
            }
            out.concat(indent_str(indent).as_str()).concat(")")
        },
        PrefValue::String(s) => quote_string(s.as_str()),
        PrefValue::Boolean(b) => if *b {
            "1".to_owned()
        } else {
            "0".to_owned()
        },
        PrefValue::Data(d) => {
            let n = d.len();
            let shown: usize = if n <= 5 {
                n
            } else {
                5
            };
            let mut preview = String::new();
            proof {
                assert(spec_hex_preview(d@, 0) =~= Seq::<char>::empty());
            }
            for k in 0..shown
                invariant
                    shown <= d@.len(),
                    preview@ == spec_hex_preview(d@, k as int),
                decreases shown - k,
            {
                if k > 0 {
                    preview = preview.concat(", ");
                }
                preview = preview.concat(hex_byte_str(d[k]).as_str());
                proof {
                    if k == 0 {
                        assert(Seq::<char>::empty() + spec_hex_byte(d@[0]) =~= spec_hex_byte(
                            d@[0],
                        ));
                    }
                }
            }
            "<length = "
                .to_owned()
                .concat(usize_to_string(n).as_str())
                .concat(", bytes = [")
                .concat(preview.as_str())
                .concat("...]>")
        },
        PrefValue::Url(s) => "<URL: ".to_owned().concat(s.as_str()).concat(">"),
        PrefValue::Uuid(s) => "<UUID: ".to_owned().concat(s.as_str()).concat(">"),
        PrefValue::Uid(u) => "<UID: ".to_owned().concat(u64_to_string(*u).as_str()).concat(">"),
        _ => val.to_text(),
    }
}

} // verus!
