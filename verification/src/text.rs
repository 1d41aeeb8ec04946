//! Character-sequence groundwork shared by the index engine and the
//! import path: lexicographic order on strings, occurrence counts,
//! NUL and whitespace predicates, splitting on spaces, and a verified
//! insertion sort for string vectors.

use vstd::prelude::*;
use vstd::seq_lib::group_to_multiset_ensures;
use vstd::string::StrSliceExecFns;
use vstd::string::StringExecFns;

verus! {

/// How often `t` occurs in `s`.
pub open spec fn occ(s: Seq<Seq<char>>, t: Seq<char>) -> nat {
    s.to_multiset().count(t)
}

pub proof fn lemma_occ_take_step(s: Seq<Seq<char>>, i: int, t: Seq<char>)
    requires
        0 <= i < s.len(),
    ensures
        occ(s.take(i + 1), t) == occ(s.take(i), t) + (if s[i] == t {
            1nat
        } else {
            0nat
        }),
{
    broadcast use group_to_multiset_ensures;

    assert(s.take(i + 1) =~= s.take(i).push(s[i]));
    assert(s.take(i + 1).to_multiset() =~= s.take(i).to_multiset().insert(s[i]));
}

pub proof fn lemma_occ_take_all(s: Seq<Seq<char>>, t: Seq<char>)
    ensures
        occ(s.take(s.len() as int), t) == occ(s, t),
{
    assert(s.take(s.len() as int) =~= s);
}

pub proof fn lemma_occ_take_mono(s: Seq<Seq<char>>, i: int, j: int, t: Seq<char>)
    requires
        0 <= i <= j <= s.len(),
    ensures
        occ(s.take(i), t) <= occ(s.take(j), t),
    decreases j - i,
{
    if i < j {
        lemma_occ_take_mono(s, i, j - 1, t);
        lemma_occ_take_step(s, j - 1, t);
    }
}

/// If `s[j] == t`, the occurrences of `t` in the prefix before `j`
/// fall short of the total count by at least one.
pub proof fn lemma_occ_prefix_missing(s: Seq<Seq<char>>, j: int, t: Seq<char>)
    requires
        0 <= j < s.len(),
        s[j] == t,
    ensures
        occ(s.take(j), t) + 1 <= occ(s, t),
{
    lemma_occ_take_step(s, j, t);
    lemma_occ_take_mono(s, j + 1, s.len() as int, t);
    lemma_occ_take_all(s, t);
}

pub proof fn lemma_occ_le_take(s: Seq<Seq<char>>, i: int, t: Seq<char>)
    requires
        0 <= i <= s.len(),
    ensures
        occ(s.take(i), t) <= i,
    decreases i,
{
    if i > 0 {
        lemma_occ_le_take(s, i - 1, t);
        lemma_occ_take_step(s, i - 1, t);
    } else {
        assert(s.take(0) =~= Seq::<Seq<char>>::empty());
        lemma_occ_empty(t);
    }
}

pub proof fn lemma_occ_le_len(s: Seq<Seq<char>>, t: Seq<char>)
    ensures
        occ(s, t) <= s.len(),
{
    lemma_occ_le_take(s, s.len() as int, t);
    lemma_occ_take_all(s, t);
}

pub proof fn lemma_occ_empty(t: Seq<char>)
    ensures
        occ(Seq::<Seq<char>>::empty(), t) == 0,
{
    broadcast use group_to_multiset_ensures;

    assert(occ(Seq::<Seq<char>>::empty(), t) == 0) by {
        assert(!Seq::<Seq<char>>::empty().contains(t));
    }
}

/// Strict lexicographic order on character sequences, by code point.
/// For valid UTF-8 this coincides with the byte order `str` compares by.
pub open spec fn chars_lt(a: Seq<char>, b: Seq<char>) -> bool
    decreases a.len(),
{
    if b.len() == 0 {
        false
    } else if a.len() == 0 {
        true
    } else if a[0] == b[0] {
        chars_lt(a.drop_first(), b.drop_first())
    } else {
        (a[0] as u32) < (b[0] as u32)
    }
}

pub open spec fn chars_le(a: Seq<char>, b: Seq<char>) -> bool {
    chars_lt(a, b) || a == b
}

pub proof fn lemma_chars_lt_irreflexive(a: Seq<char>)
    ensures
        !chars_lt(a, a),
    decreases a.len(),
{
    if a.len() > 0 {
        lemma_chars_lt_irreflexive(a.drop_first());
    }
}

pub proof fn lemma_chars_lt_connected(a: Seq<char>, b: Seq<char>)
    requires
        !chars_lt(a, b),
        a != b,
    ensures
        chars_lt(b, a),
    decreases a.len(),
{
    if b.len() == 0 {
        assert(a.len() > 0) by {
            if a.len() == 0 {
                assert(a =~= b);
            }
        }
    } else if a.len() == 0 {
    } else if a[0] == b[0] {
        assert(a.drop_first() != b.drop_first()) by {
            if a.drop_first() == b.drop_first() {
                assert(a =~= seq![a[0]] + a.drop_first());
                assert(b =~= seq![b[0]] + b.drop_first());
            }
        }
        lemma_chars_lt_connected(a.drop_first(), b.drop_first());
    } else {
        lemma_char_cast_distinct(a[0], b[0]);
    }
}

pub proof fn lemma_char_cast_distinct(a: char, b: char)
    requires
        a != b,
    ensures
        (a as u32) != (b as u32),
{
    vstd::utf8::char_u32_cast(a, a as u32);
    vstd::utf8::char_u32_cast(b, b as u32);
}

pub proof fn lemma_chars_lt_transitive(a: Seq<char>, b: Seq<char>, c: Seq<char>)
    requires
        chars_lt(a, b),
        chars_lt(b, c),
    ensures
        chars_lt(a, c),
    decreases a.len() + b.len() + c.len(),
{
    if b.len() == 0 || c.len() == 0 {
    } else if a.len() == 0 {
    } else {
        if a[0] == b[0] && b[0] == c[0] {
            lemma_chars_lt_transitive(a.drop_first(), b.drop_first(), c.drop_first());
        }
    }
}

pub proof fn lemma_chars_le_transitive(a: Seq<char>, b: Seq<char>, c: Seq<char>)
    requires
        chars_le(a, b),
        chars_le(b, c),
    ensures
        chars_le(a, c),
{
    if a != b && b != c {
        lemma_chars_lt_transitive(a, b, c);
    }
}

/// The first position where two sequences differ decides their order.
pub proof fn lemma_chars_lt_at(a: Seq<char>, b: Seq<char>, i: int)
    requires
        0 <= i <= a.len(),
        0 <= i <= b.len(),
        forall|k: int| 0 <= k < i ==> a[k] == b[k],
    ensures
        i == a.len() && i == b.len() ==> a =~= b,
        i == a.len() && i < b.len() ==> chars_lt(a, b),
        i == b.len() && i < a.len() ==> !chars_lt(a, b),
        i < a.len() && i < b.len() && a[i] != b[i] ==> chars_lt(a, b) == ((a[i] as u32) < (
        b[i] as u32)),
    decreases i,
{
    if i == 0 {
    } else {
        assert(a.len() > 0 && b.len() > 0);
        assert(a[0] == b[0]);
        assert(forall|k: int|
            0 <= k < i - 1 ==> a.drop_first()[k] == #[trigger] b.drop_first()[k]);
        lemma_chars_lt_at(a.drop_first(), b.drop_first(), i - 1);
        if i == a.len() && i == b.len() {
            assert(a.drop_first() =~= b.drop_first());
            assert(a =~= seq![a[0]] + a.drop_first());
            assert(b =~= seq![b[0]] + b.drop_first());
        }
        if i < a.len() && i < b.len() && a[i] != b[i] {
            assert(a.drop_first()[i - 1] == a[i]);
            assert(b.drop_first()[i - 1] == b[i]);
        }
    }
}

/// Whether `s` holds an interior NUL, which the tokenizer rejects.
pub open spec fn has_nul(s: Seq<char>) -> bool {
    exists|i: int| 0 <= i < s.len() && s[i] == '\0'
}

/// The characters with the Unicode `White_Space` property, which
/// `str::trim` strips.
pub open spec fn char_is_space(c: char) -> bool {
    c == ' ' || c == '\t' || c == '\n' || c == '\u{b}' || c == '\u{c}' || c == '\r' || c
        == '\u{85}' || c == '\u{a0}' || c == '\u{1680}' || c == '\u{2000}' || c == '\u{2001}' || c
        == '\u{2002}' || c == '\u{2003}' || c == '\u{2004}' || c == '\u{2005}' || c == '\u{2006}'
        || c == '\u{2007}' || c == '\u{2008}' || c == '\u{2009}' || c == '\u{200a}' || c
        == '\u{2028}' || c == '\u{2029}' || c == '\u{202f}' || c == '\u{205f}' || c == '\u{3000}'
}

/// Whether `s` trims to the empty string.
pub open spec fn is_blank(s: Seq<char>) -> bool {
    forall|i: int| 0 <= i < s.len() ==> char_is_space(#[trigger] s[i])
}

/// Splitting on single spaces, as `str::split(" ")` does: consecutive
/// separators and separators at either end yield empty pieces, and the
/// empty string yields one empty piece.
pub open spec fn split_sp(s: Seq<char>) -> Seq<Seq<char>>
    decreases s.len(),
{
    if s.len() == 0 {
        seq![Seq::<char>::empty()]
    } else {
        let rest = split_sp(s.drop_first());
        if s[0] == ' ' {
            seq![Seq::<char>::empty()] + rest
        } else {
            seq![seq![s[0]] + rest[0]] + rest.drop_first()
        }
    }
}

pub proof fn lemma_split_sp_len(s: Seq<char>)
    ensures
        split_sp(s).len() >= 1,
    decreases s.len(),
{
    if s.len() > 0 {
        lemma_split_sp_len(s.drop_first());
    }
}

pub fn str_contains_nul(s: &str) -> (r: bool)
    ensures
        r == has_nul(s@),
{
    let n = s.unicode_len();
    let mut i: usize = 0;
    while i < n
        invariant
            n == s@.len(),
            0 <= i <= n,
            forall|k: int| 0 <= k < i ==> s@[k] != '\0',
        decreases n - i,
    {
        if s.get_char(i) == '\0' {
            return true;
        }
        i = i + 1;
    }
    false
}

pub fn str_is_blank(s: &str) -> (r: bool)
    ensures
        r == is_blank(s@),
{
    let n = s.unicode_len();
    let mut i: usize = 0;
    while i < n
        invariant
            n == s@.len(),
            0 <= i <= n,
            forall|k: int| 0 <= k < i ==> char_is_space(#[trigger] s@[k]),
        decreases n - i,
    {
        let c = s.get_char(i);
        let space = c == ' ' || c == '\t' || c == '\n' || c == '\u{b}' || c == '\u{c}' || c == '\r'
            || c == '\u{85}' || c == '\u{a0}' || c == '\u{1680}' || c == '\u{2000}' || c
            == '\u{2001}' || c == '\u{2002}' || c == '\u{2003}' || c == '\u{2004}' || c
            == '\u{2005}' || c == '\u{2006}' || c == '\u{2007}' || c == '\u{2008}' || c
            == '\u{2009}' || c == '\u{200a}' || c == '\u{2028}' || c == '\u{2029}' || c
            == '\u{202f}' || c == '\u{205f}' || c == '\u{3000}';
        if !space {
            return false;
        }
        i = i + 1;
    }
    true
}

pub fn str_lt(a: &str, b: &str) -> (r: bool)
    ensures
        r == chars_lt(a@, b@),
{
    let alen = a.unicode_len();
    let blen = b.unicode_len();
    let mut i: usize = 0;
    loop
        invariant
            alen == a@.len(),
            blen == b@.len(),
            0 <= i <= alen,
            0 <= i <= blen,
            forall|k: int| 0 <= k < i ==> a@[k] == b@[k],
        decreases alen - i,
    {
        proof {
            lemma_chars_lt_at(a@, b@, i as int);
            if i == alen && i == blen {
                lemma_chars_lt_irreflexive(a@);
            }
        }
        if i >= blen {
            return false;
        }
        if i >= alen {
            return true;
        }
        let ca = a.get_char(i);
        let cb = b.get_char(i);
        if ca != cb {
            return (ca as u32) < (cb as u32);
        }
        i = i + 1;
    }
}

pub fn str_eq(a: &str, b: &str) -> (r: bool)
    ensures
        r == (a@ == b@),
{
    let alen = a.unicode_len();
    let blen = b.unicode_len();
    if alen != blen {
        return false;
    }
    let mut i: usize = 0;
    while i < alen
        invariant
            alen == a@.len(),
            alen == b@.len(),
            0 <= i <= alen,
            forall|k: int| 0 <= k < i ==> a@[k] == b@[k],
        decreases alen - i,
    {
        if a.get_char(i) != b.get_char(i) {
            return false;
        }
        i = i + 1;
    }
    proof {
        assert(a@ =~= b@);
    }
    true
}

pub fn split_spaces(s: &str) -> (r: Vec<String>)
    ensures
        r.deep_view() == split_sp(s@),
        r.len() >= 1,
    decreases s@.len(),
{
    let n = s.unicode_len();
    if n == 0 {
        let mut r: Vec<String> = Vec::new();
        r.push(String::new());
        assert(r.deep_view() =~= split_sp(s@));
        return r;
    }
    let c = s.get_char(0);
    let tail = s.substring_char(1, n);
    assert(tail@ =~= s@.drop_first());
    let mut r = split_spaces(tail);
    let ghost rest_dv = r.deep_view();
    proof {
        lemma_split_sp_len(s@.drop_first());
    }
    if c == ' ' {
        r.insert(0, String::new());
        assert(r.deep_view() =~= seq![Seq::<char>::empty()] + rest_dv);
        assert(r.deep_view() == split_sp(s@));
        r
    } else {
        let first_old = r.remove(0);
        assert(first_old@ == rest_dv[0]);
        let head = s.substring_char(0, 1);
        assert(head@ =~= seq![s@[0]]);
        let first = head.to_owned().concat(first_old.as_str());
        assert(first@ == seq![s@[0]] + rest_dv[0]);
        r.insert(0, first);
        assert(r.deep_view() =~= seq![seq![s@[0]] + rest_dv[0]] + rest_dv.drop_first());
        assert(r.deep_view() == split_sp(s@));
        r
    }
}

/// Sorted ascending in the lexicographic order.
pub open spec fn strings_sorted(s: Seq<Seq<char>>) -> bool {
    forall|i: int, j: int| 0 <= i < j < s.len() ==> chars_le(#[trigger] s[i], #[trigger] s[j])
}

/// Insertion sort for a vector of strings, ascending.
pub fn sort_strings(v: &mut Vec<String>)
    ensures
        strings_sorted(final (v).deep_view()),
        final (v).deep_view().to_multiset() == old(v).deep_view().to_multiset(),
        final (v).len() == old(v).len(),
{
    broadcast use group_to_multiset_ensures;

    let ghost orig = v.deep_view();
    let n = v.len();
    if n <= 1 {
        return ;
    }
    let mut k: usize = 1;
    while k < n
        invariant
            n == v.len(),
            n >= 2,
            1 <= k <= n,
            strings_sorted(v.deep_view().take(k as int)),
            v.deep_view().to_multiset() == orig.to_multiset(),
        decreases n - k,
    {
        proof {
            assert forall|a: int, b: int| 0 <= a < b <= k && a != k && b != k implies chars_le(
                #[trigger] v.deep_view()[a],
                #[trigger] v.deep_view()[b],
            ) by {
                assert(v.deep_view().take(k as int)[a] == v.deep_view()[a]);
                assert(v.deep_view().take(k as int)[b] == v.deep_view()[b]);
            }
        }
        let mut j: usize = k;
        loop
            invariant
                n == v.len(),
                0 <= j <= k < n,
                forall|a: int, b: int|
                    0 <= a < b <= k && a != j && b != j ==> chars_le(
                        #[trigger] v.deep_view()[a],
                        #[trigger] v.deep_view()[b],
                    ),
                forall|b: int|
                    j < b <= k ==> chars_lt(v.deep_view()[j as int], #[trigger] v.deep_view()[b]),
                v.deep_view().to_multiset() == orig.to_multiset(),
            ensures
                n == v.len(),
                0 <= j <= k < n,
                forall|a: int, b: int|
                    0 <= a < b <= k && a != j && b != j ==> chars_le(
                        #[trigger] v.deep_view()[a],
                        #[trigger] v.deep_view()[b],
                    ),
                forall|b: int|
                    j < b <= k ==> chars_lt(v.deep_view()[j as int], #[trigger] v.deep_view()[b]),
                v.deep_view().to_multiset() == orig.to_multiset(),
                j == 0 || chars_le(v.deep_view()[j - 1], v.deep_view()[j as int]),
            decreases j,
        {
            if j == 0 {
                break ;
            }
            let moving = str_lt(v[j].as_str(), v[j - 1].as_str());
            if !moving {
                proof {
                    if v.deep_view()[j as int] != v.deep_view()[j - 1] {
                        lemma_chars_lt_connected(v.deep_view()[j as int], v.deep_view()[j - 1]);
                    }
                }
                break ;
            }
            let ghost before = v.deep_view();
            let x = v.remove(j);
            v.insert(j - 1, x);
            proof {
                broadcast use group_to_multiset_ensures;

                let e = before[j as int];
                assert(v.deep_view() =~= before.remove(j as int).insert(j - 1, e));
                assert(before.remove(j as int).to_multiset() == before.to_multiset().remove(e));
                assert(before.remove(j as int).insert(j - 1, e).to_multiset() == before.remove(
                    j as int,
                ).to_multiset().insert(e));
                assert(before.contains(e));
                assert(before.to_multiset().count(e) > 0);
                assert(before.to_multiset().remove(e).insert(e) =~= before.to_multiset());
                assert(v.deep_view().to_multiset() == before.to_multiset());
                assert forall|b: int|
                    j - 1 < b <= k implies chars_lt(
                    v.deep_view()[j - 1],
                    #[trigger] v.deep_view()[b],
                ) by {
                    if b == j {
                        assert(v.deep_view()[b] == before[j - 1]);
                    } else {
                        assert(v.deep_view()[b] == before[b]);
                    }
                }
                assert forall|a: int, b: int|
                    0 <= a < b <= k && a != j - 1 && b != j - 1 implies chars_le(
                    #[trigger] v.deep_view()[a],
                    #[trigger] v.deep_view()[b],
                ) by {
                    if a == j {
                        assert(v.deep_view()[a] == before[j - 1]);
                        assert(v.deep_view()[b] == before[b]);
                    } else if b == j {
                        assert(v.deep_view()[a] == before[a]);
                        assert(v.deep_view()[b] == before[j - 1]);
                    } else {
                        assert(v.deep_view()[a] == before[a]);
                        assert(v.deep_view()[b] == before[b]);
                    }
                }
            }
            j = j - 1;
        }
        proof {
            let dv = v.deep_view();
            assert forall|a: int, b: int| 0 <= a < b <= k implies chars_le(
                #[trigger] dv[a],
                #[trigger] dv[b],
            ) by {
                if a == j {
                    assert(chars_lt(dv[a], dv[b]));
                } else if b == j {
                    if j > 0 {
                        assert(chars_le(dv[j - 1], dv[j as int]));
                        if a < j - 1 {
                            assert(chars_le(dv[a], dv[j - 1]));
                            lemma_chars_le_transitive(dv[a], dv[j - 1], dv[j as int]);
                        }
                    }
                }
            }
            assert(strings_sorted(dv.take(k + 1))) by {
                assert(forall|a: int, b: int|
                    0 <= a < b < k + 1 ==> chars_le(
                        #[trigger] dv.take(k + 1)[a],
                        #[trigger] dv.take(k + 1)[b],
                    ));
            }
        }
        k = k + 1;
    }
    proof {
        assert(v.deep_view().take(n as int) =~= v.deep_view());
    }
}

} // verus!
