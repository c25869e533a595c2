//! Text utilities: case folding, substring search, character classes,
//! decimal rendering, and lexicographic ordering of names.

use vstd::prelude::*;
use vstd::multiset::Multiset;
use vstd::string::StrSliceExecFns;
use vstd::string::StringExecFns;

verus! {

/// What `str::to_lowercase` returns for a given character sequence.
pub uninterp spec fn lower_of(s: Seq<char>) -> Seq<char>;

/// Relies on str::to_lowercase: the result is a function of the
/// characters alone.
#[verifier::external_body]
pub fn lowercase(s: &str) -> (r: String)
    ensures
        r@ == lower_of(s@),
{
    s.to_lowercase()
}

/// Whether `char::is_alphanumeric` accepts a character.
pub uninterp spec fn alnum_char(c: char) -> bool;

/// Relies on char::is_alphanumeric: a Unicode character-class test,
/// a function of the character alone.
#[verifier::external_body]
pub fn char_is_alphanumeric(c: char) -> (r: bool)
    ensures
        r == alnum_char(c),
{
    c.is_alphanumeric()
}

/// Whether `n` occurs contiguously inside `h`.
pub open spec fn spec_is_substring(h: Seq<char>, n: Seq<char>) -> bool {
    exists|i: int| 0 <= i <= h.len() - n.len() && #[trigger] h.subrange(i, i + n.len()) == n
}

/// Substring search over characters, position by position.
pub fn contains_sub(h: &str, n: &str) -> (r: bool)
    ensures
        r == spec_is_substring(h@, n@),
{
    let hl = h.unicode_len();
    let nl = n.unicode_len();
    if nl > hl {
        proof {
            assert forall|i: int|
                !(0 <= i <= h@.len() - n@.len() && #[trigger] h@.subrange(i, i + n@.len())
                    == n@) by {}
        }
        return false;
    }
    if nl == 0 {
        proof {
            assert(h@.subrange(0int, 0int + n@.len() as int) =~= n@);
        }
        return true;
    }
    let mut i: usize = 0;
    while i <= hl - nl
        invariant
            1 <= nl <= hl,
            hl == h@.len(),
            nl == n@.len(),
            i <= hl - nl + 1,
            forall|p: int| 0 <= p < i ==> #[trigger] h@.subrange(p, p + n@.len()) != n@,
        decreases hl - nl - i + 1,
    {
        let mut j: usize = 0;
        let mut matched = true;
        while j < nl
            invariant
                nl <= hl,
                hl == h@.len(),
                nl == n@.len(),
                i <= hl - nl,
                j <= nl,
                matched ==> forall|q: int|
                    0 <= q < j ==> h@.subrange(i as int, i + n@.len())[q] == n@[q],
                !matched ==> h@.subrange(i as int, i + n@.len()) != n@,
            decreases nl - j,
        {
            if h.get_char(i + j) != n.get_char(j) {
                proof {
                    assert(h@.subrange(i as int, i + n@.len())[j as int] == h@[i + j]);
                }
                matched = false;
                j = nl;
            } else {
                proof {
                    assert(h@.subrange(i as int, i + n@.len())[j as int] == h@[i + j]);
                }
                j = j + 1;
            }
        }
        if matched {
            proof {
                assert(h@.subrange(i as int, i + n@.len()) =~= n@);
            }
            return true;
        }
        i = i + 1;
    }
    proof {
        assert forall|p: int|
            0 <= p <= h@.len() - n@.len() implies #[trigger] h@.subrange(p, p + n@.len())
            != n@ by {
            assert(p < i);
        }
    }
    false
}

/// Whether the lowercase form of `h` contains `needle_lower`.
pub fn contains_word(h: &str, needle_lower: &str) -> (r: bool)
    ensures
        r == spec_is_substring(lower_of(h@), needle_lower@),
{
    let folded = lowercase(h);
    contains_sub(folded.as_str(), needle_lower)
}

/// The decimal digit character for one digit value.
pub open spec fn spec_digit_char(d: nat) -> char {
    if d == 0 {
        '0'
    } else if d == 1 {
        '1'
    } else if d == 2 {
        '2'
    } else if d == 3 {
        '3'
    } else if d == 4 {
        '4'
    } else if d == 5 {
        '5'
    } else if d == 6 {
        '6'
    } else if d == 7 {
        '7'
    } else if d == 8 {
        '8'
    } else {
        '9'
    }
}

/// The decimal rendering of a natural number, most significant digit
/// first, with no leading zeroes (zero itself is one digit).
pub open spec fn spec_dec_rep(n: nat) -> Seq<char>
    decreases n,
{
    if n < 10 {
        seq![spec_digit_char(n)]
    } else {
        spec_dec_rep(n / 10) + seq![spec_digit_char(n % 10)]
    }
}

/// The decimal rendering of a signed number: a minus sign before the
/// magnitude when it is negative.
pub open spec fn spec_dec_rep_signed(n: int) -> Seq<char> {
    if n >= 0 {
        spec_dec_rep(n as nat)
    } else {
        seq!['-'] + spec_dec_rep((-n) as nat)
    }
}

/// One decimal digit as a borrowed string.
fn digit_str(d: u64) -> (r: &'static str)
    requires
        d < 10,
    ensures
        r@ == seq![spec_digit_char(d as nat)],
{
    proof {
        reveal_strlit("0");
        reveal_strlit("1");
        reveal_strlit("2");
        reveal_strlit("3");
        reveal_strlit("4");
        reveal_strlit("5");
        reveal_strlit("6");
        reveal_strlit("7");
        reveal_strlit("8");
        reveal_strlit("9");
    }
    if d == 0 {
        "0"
    } else if d == 1 {
        "1"
    } else if d == 2 {
        "2"
    } else if d == 3 {
        "3"
    } else if d == 4 {
        "4"
    } else if d == 5 {
        "5"
    } else if d == 6 {
        "6"
    } else if d == 7 {
        "7"
    } else if d == 8 {
        "8"
    } else {
        "9"
    }
}

/// Render an unsigned number in decimal.
pub fn u64_to_string(n: u64) -> (r: String)
    ensures
        r@ == spec_dec_rep(n as nat),
    decreases n,
{
    if n < 10 {
        return digit_str(n).to_owned();
    }
    let prefix = u64_to_string(n / 10);
    prefix.concat(digit_str(n % 10))
}

/// Render a signed number in decimal.
pub fn i64_to_string(n: i64) -> (r: String)
    ensures
        r@ == spec_dec_rep_signed(n as int),
{
    if n >= 0 {
        u64_to_string(n as u64)
    } else {
        let mag: u64 = if n == i64::MIN {
            9223372036854775808u64
        } else {
            (-n) as u64
        };
        proof {
            reveal_strlit("-");
        }
        "-".to_owned().concat(u64_to_string(mag).as_str())
    }
}

/// Model of a list of names.
pub open spec fn names_view(s: Seq<String>) -> Seq<Seq<char>> {
    s.map_values(|x: String| x@)
}

/// Lexicographic order on character sequences, by code point, with a
/// prefix ordered before its extensions.
pub open spec fn lex_le(a: Seq<char>, b: Seq<char>) -> bool
    decreases a.len(),
{
    if a.len() == 0 {
        true
    } else if b.len() == 0 {
        false
    } else if a[0] == b[0] {
        lex_le(a.subrange(1, a.len() as int), b.subrange(1, b.len() as int))
    } else {
        (a[0] as u32) < (b[0] as u32)
    }
}

/// Distinct characters have distinct code points.
pub proof fn lemma_char_distinct(c: char, d: char)
    requires
        c != d,
    ensures
        (c as u32) != (d as u32),
{
}

/// The order is reflexive.
pub proof fn lemma_lex_refl(a: Seq<char>)
    ensures
        lex_le(a, a),
    decreases a.len(),
{
    if a.len() > 0 {
        lemma_lex_refl(a.subrange(1, a.len() as int));
    }
}

/// The order is total.
pub proof fn lemma_lex_total(a: Seq<char>, b: Seq<char>)
    ensures
        lex_le(a, b) || lex_le(b, a),
    decreases a.len(),
{
    if a.len() == 0 {
        assert(lex_le(a, b));
    } else if b.len() == 0 {
        assert(lex_le(b, a));
    } else if a[0] == b[0] {
        let at = a.subrange(1, a.len() as int);
        let bt = b.subrange(1, b.len() as int);
        lemma_lex_total(at, bt);
        assert(lex_le(a, b) == lex_le(at, bt));
        assert(lex_le(b, a) == lex_le(bt, at));
    } else {
        lemma_char_distinct(a[0], b[0]);
    }
}

/// The order is transitive.
pub proof fn lemma_lex_trans(a: Seq<char>, b: Seq<char>, c: Seq<char>)
    requires
        lex_le(a, b),
        lex_le(b, c),
    ensures
        lex_le(a, c),
    decreases a.len(),
{
    if a.len() > 0 && b.len() > 0 && c.len() > 0 {
        if a[0] == b[0] && b[0] == c[0] {
            lemma_lex_trans(
                a.subrange(1, a.len() as int),
                b.subrange(1, b.len() as int),
                c.subrange(1, c.len() as int),
            );
        } else {
            if a[0] != b[0] {
                lemma_char_distinct(a[0], b[0]);
            }
            if b[0] != c[0] {
                lemma_char_distinct(b[0], c[0]);
            }
            if a[0] != c[0] {
                lemma_char_distinct(a[0], c[0]);
            }
        }
    }
}

/// A scan that compared `i` equal characters pins `lex_le` down.
pub proof fn lemma_lex_le_from_scan(a: Seq<char>, b: Seq<char>, i: int)
    requires
        0 <= i <= a.len(),
        i <= b.len(),
        forall|j: int| 0 <= j < i ==> a[j] == b[j],
        i == a.len() || i == b.len() || a[i] != b[i],
    ensures
        lex_le(a, b) == if i == a.len() {
            true
        } else if i == b.len() {
            false
        } else {
            (a[i] as u32) < (b[i] as u32)
        },
    decreases i,
{
    if i > 0 {
        let at = a.subrange(1, a.len() as int);
        let bt = b.subrange(1, b.len() as int);
        assert(forall|j: int| 0 <= j < at.len() ==> at[j] == a[j + 1]);
        assert(forall|j: int| 0 <= j < bt.len() ==> bt[j] == b[j + 1]);
        lemma_lex_le_from_scan(at, bt, i - 1);
    }
}

/// Compare two names lexicographically.
pub fn str_le(a: &str, b: &str) -> (r: bool)
    ensures
        r == lex_le(a@, b@),
{
    let al = a.unicode_len();
    let bl = b.unicode_len();
    let mut i: usize = 0;
    while i < al && i < bl
        invariant
            al == a@.len(),
            bl == b@.len(),
            i <= al,
            i <= bl,
            forall|j: int| 0 <= j < i ==> a@[j] == b@[j],
        decreases al - i,
    {
        let ca = a.get_char(i);
        let cb = b.get_char(i);
        if ca != cb {
            proof {
                lemma_lex_le_from_scan(a@, b@, i as int);
            }
            return (ca as u32) < (cb as u32);
        }
        i = i + 1;
    }
    proof {
        lemma_lex_le_from_scan(a@, b@, i as int);
    }
    i == al
}

/// Sort names lexicographically.  The result holds exactly the same
/// names (as a multiset), in order; names that were pairwise distinct
/// stay pairwise distinct.
pub fn sort_names(input: Vec<String>) -> (r: Vec<String>)
    ensures
        names_view(r@).to_multiset() == names_view(input@).to_multiset(),
        forall|i: int, j: int| 0 <= i < j < r@.len() ==> lex_le(r@[i]@, r@[j]@),
        names_view(input@).no_duplicates() ==> names_view(r@).no_duplicates(),
{
    broadcast use vstd::seq_lib::group_to_multiset_ensures;

    let mut work = input;
    let mut out: Vec<String> = Vec::new();
    let ghost all = names_view(work@);
    proof {
        broadcast use vstd::seq_lib::group_to_multiset_ensures, vstd::multiset::group_multiset_axioms;

        assert(names_view(out@) =~= Seq::<Seq<char>>::empty());
        assert forall|y: Seq<char>|
            names_view(out@).to_multiset().add(names_view(work@).to_multiset()).count(y)
                == all.to_multiset().count(y) by {
            if names_view(out@).to_multiset().count(y) > 0 {
                assert(names_view(out@).contains(y));
            }
        }
        assert(names_view(out@).to_multiset().add(names_view(work@).to_multiset())
            =~= all.to_multiset());
    }
    while work.len() > 0
        invariant
            names_view(out@).to_multiset().add(names_view(work@).to_multiset()) == all.to_multiset(),
            forall|i: int, j: int| 0 <= i < j < out@.len() ==> lex_le(out@[i]@, out@[j]@),
            forall|i: int, j: int|
                0 <= i < out@.len() && 0 <= j < work@.len() ==> lex_le(out@[i]@, work@[j]@),
        decreases work.len(),
    {
        let mut m: usize = 0;
        let n = work.len();
        proof {
            lemma_lex_refl(work@[0]@);
        }
        for j in 1..n
            invariant
                n == work.len(),
                n > 0,
                m < j,
                forall|t: int| 0 <= t < j ==> lex_le(work@[m as int]@, work@[t]@),
            decreases n - j,
        {
            if str_le(&work[j], &work[m]) {
                proof {
                    assert forall|t: int| 0 <= t < j + 1 implies lex_le(
                        work@[j as int]@,
                        work@[t]@,
                    ) by {
                        if t < j {
                            lemma_lex_trans(work@[j as int]@, work@[m as int]@, work@[t]@);
                        } else {
                            lemma_lex_refl(work@[j as int]@);
                        }
                    }
                }
                m = j;
            } else {
                proof {
                    lemma_lex_total(work@[j as int]@, work@[m as int]@);
                }
            }
        }
        let ghost work0 = work@;
        let ghost out0 = out@;
        let x = work.remove(m);
        out.push(x);
        proof {
            broadcast use vstd::seq_lib::group_to_multiset_ensures, vstd::multiset::group_multiset_axioms;

            let ghost v = work0[m as int]@;
            assert(names_view(work0)[m as int] == v);
            assert(names_view(work@) =~= names_view(work0).remove(m as int));
            assert(names_view(out@) =~= names_view(out0).push(v));
            assert(names_view(work@).to_multiset() =~= names_view(work0).to_multiset().remove(v));
            assert(names_view(out@).to_multiset() =~= names_view(out0).to_multiset().insert(v));
            assert(names_view(work0).contains(v));
            assert(names_view(work0).to_multiset().count(v) > 0);
            assert forall|y: Seq<char>|
                names_view(out@).to_multiset().add(names_view(work@).to_multiset()).count(y)
                    == all.to_multiset().count(y) by {
                assert(names_view(out0).to_multiset().add(names_view(work0).to_multiset()).count(
                    y,
                ) == all.to_multiset().count(y));
            }
            assert(names_view(out@).to_multiset().add(names_view(work@).to_multiset())
                =~= all.to_multiset());
        }
    }
    proof {
        assert(names_view(work@) =~= Seq::<Seq<char>>::empty());
        assert(names_view(out@).to_multiset() =~= all.to_multiset());
        if all.no_duplicates() {
            all.lemma_multiset_has_no_duplicates();
            names_view(out@).lemma_multiset_has_no_duplicates_conv();
        }
    }
    out
}

/// Whether `s` ends with `suffix`.
pub open spec fn spec_ends_with(s: Seq<char>, suffix: Seq<char>) -> bool {
    s.len() >= suffix.len() && s.subrange(s.len() - suffix.len(), s.len() as int) == suffix
}

/// Suffix test over characters.
pub fn ends_with_str(s: &str, suffix: &str) -> (r: bool)
    ensures
        r == spec_ends_with(s@, suffix@),
{
    let sl = s.unicode_len();
    let fl = suffix.unicode_len();
    if fl > sl {
        return false;
    }
    let base = sl - fl;
    for j in 0..fl
        invariant
            sl == s@.len(),
            fl == suffix@.len(),
            base == sl - fl,
            forall|q: int|
                0 <= q < j ==> s@.subrange(s@.len() - suffix@.len(), s@.len() as int)[q]
                    == suffix@[q],
        decreases fl - j,
    {
        if s.get_char(base + j) != suffix.get_char(j) {
            proof {
                assert(s@.subrange(s@.len() - suffix@.len(), s@.len() as int)[j as int] == s@[base
                    + j]);
            }
            return false;
        }
        proof {
            assert(s@.subrange(s@.len() - suffix@.len(), s@.len() as int)[j as int] == s@[base
                + j]);
        }
    }
    proof {
        assert(s@.subrange(s@.len() - suffix@.len(), s@.len() as int) =~= suffix@);
    }
    true
}

/// Render a usize in decimal.
pub fn usize_to_string(n: usize) -> (r: String)
    ensures
        r@ == spec_dec_rep(n as nat),
{
    u64_to_string(n as u64)
}

} // verus!
