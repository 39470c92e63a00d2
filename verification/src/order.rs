//! Lexicographic order on text and the sorted, duplicate-free lists of
//! names that the shell offers for completion.
//!
//! Text is ordered character by character by code point, which is the
//! order of `String`'s `Ord` (UTF-8 keeps code point order byte by byte).

use vstd::prelude::*;

use crate::text::{chars_eq, chars_of, views_of};

verus! {

/// `a` comes strictly before `b` in lexicographic order.
pub open spec fn lex_lt(a: Seq<char>, b: Seq<char>) -> bool
    decreases a.len(),
{
    if b.len() == 0 {
        false
    } else if a.len() == 0 {
        true
    } else if a[0] != b[0] {
        (a[0] as u32) < (b[0] as u32)
    } else {
        lex_lt(a.drop_first(), b.drop_first())
    }
}

/// Each element comes strictly before every later one.
pub open spec fn strictly_sorted(s: Seq<Seq<char>>) -> bool {
    forall|i: int, j: int| 0 <= i < j < s.len() ==> lex_lt(#[trigger] s[i], #[trigger] s[j])
}

/// No text comes before itself.
pub proof fn lemma_lex_irreflexive(a: Seq<char>)
    ensures
        !lex_lt(a, a),
    decreases a.len(),
{
    if a.len() > 0 {
        lemma_lex_irreflexive(a.drop_first());
    }
}

/// The order is transitive.
pub proof fn lemma_lex_transitive(a: Seq<char>, b: Seq<char>, c: Seq<char>)
    requires
        lex_lt(a, b),
        lex_lt(b, c),
    ensures
        lex_lt(a, c),
    decreases a.len(),
{
    if a.len() > 0 && b.len() > 0 && c.len() > 0 && a[0] == b[0] && b[0] == c[0] {
        lemma_lex_transitive(a.drop_first(), b.drop_first(), c.drop_first());
    }
}

/// Of two different texts, one comes before the other.
pub proof fn lemma_lex_total(a: Seq<char>, b: Seq<char>)
    requires
        a != b,
    ensures
        lex_lt(a, b) || lex_lt(b, a),
    decreases a.len(),
{
    if a.len() > 0 && b.len() > 0 {
        vstd::utf8::char_u32_cast(a[0], a[0] as u32);
        vstd::utf8::char_u32_cast(b[0], b[0] as u32);
        if a[0] == b[0] {
            if a.drop_first() == b.drop_first() {
                assert(a =~= seq![a[0]] + a.drop_first());
                assert(b =~= seq![b[0]] + b.drop_first());
            }
            lemma_lex_total(a.drop_first(), b.drop_first());
        }
    } else if a.len() == 0 && b.len() == 0 {
        assert(a =~= b);
    }
}

/// No text comes both before and after another.
pub proof fn lemma_lex_asymmetric(a: Seq<char>, b: Seq<char>)
    requires
        lex_lt(a, b),
    ensures
        !lex_lt(b, a),
{
    if lex_lt(b, a) {
        lemma_lex_transitive(a, b, a);
        lemma_lex_irreflexive(a);
    }
}

/// Whether `a` comes strictly before `b`.
pub fn lex_less(a: &Vec<char>, b: &Vec<char>) -> (r: bool)
    ensures
        r == lex_lt(a@, b@),
{
    let mut i: usize = 0;
    assert(a@.skip(0) =~= a@);
    assert(b@.skip(0) =~= b@);
    loop
        invariant
            i <= a.len(),
            i <= b.len(),
            lex_lt(a@, b@) == lex_lt(a@.skip(i as int), b@.skip(i as int)),
        decreases a.len() - i,
    {
        let ghost sa = a@.skip(i as int);
        let ghost sb = b@.skip(i as int);
        if i == b.len() {
            return false;
        }
        if i == a.len() {
            return true;
        }
        assert(sa[0] == a@[i as int]);
        assert(sb[0] == b@[i as int]);
        if a[i] != b[i] {
            return (a[i] as u32) < (b[i] as u32);
        }
        assert(sa.drop_first() =~= a@.skip(i + 1));
        assert(sb.drop_first() =~= b@.skip(i + 1));
        i = i + 1;
    }
}

proof fn lemma_sorted_same_elements(a: Seq<Seq<char>>, b: Seq<Seq<char>>)
    requires
        strictly_sorted(a),
        strictly_sorted(b),
        forall|x: Seq<char>| a.contains(x) <==> b.contains(x),
    ensures
        a == b,
    decreases a.len(),
{
    if a.len() == 0 {
        if b.len() > 0 {
            assert(b.contains(b[0]));
        }
        assert(a =~= b);
    } else if b.len() == 0 {
        assert(a.contains(a[0]));
    } else {
        // Both lists start with the least element of their common elements.
        assert(a.contains(a[0]));
        assert(b.contains(b[0]));
        if a[0] != b[0] {
            let ia = choose|i: int| 0 <= i < a.len() && a[i] == b[0];
            let ib = choose|i: int| 0 <= i < b.len() && b[i] == a[0];
            assert(lex_lt(a[0], a[ia]));
            assert(lex_lt(b[0], b[ib]));
            lemma_lex_asymmetric(a[0], b[0]);
        }
        let ta = a.drop_first();
        let tb = b.drop_first();
        assert forall|x: Seq<char>| ta.contains(x) implies tb.contains(x) by {
            let i = choose|i: int| 0 <= i < ta.len() && ta[i] == x;
            assert(a[i + 1] == x);
            assert(a.contains(x));
            let j = choose|j: int| 0 <= j < b.len() && b[j] == x;
            if j == 0 {
                assert(lex_lt(a[0], a[i + 1]));
                lemma_lex_irreflexive(x);
            }
            assert(tb[j - 1] == x);
        }
        assert forall|x: Seq<char>| tb.contains(x) implies ta.contains(x) by {
            let i = choose|i: int| 0 <= i < tb.len() && tb[i] == x;
            assert(b[i + 1] == x);
            assert(b.contains(x));
            let j = choose|j: int| 0 <= j < a.len() && a[j] == x;
            if j == 0 {
                assert(lex_lt(b[0], b[i + 1]));
                lemma_lex_irreflexive(x);
            }
            assert(ta[j - 1] == x);
        }
        assert(strictly_sorted(ta)) by {
            assert forall|i: int, j: int| 0 <= i < j < ta.len() implies lex_lt(
                #[trigger] ta[i],
                #[trigger] ta[j],
            ) by {
                assert(ta[i] == a[i + 1] && ta[j] == a[j + 1]);
            }
        }
        assert(strictly_sorted(tb)) by {
            assert forall|i: int, j: int| 0 <= i < j < tb.len() implies lex_lt(
                #[trigger] tb[i],
                #[trigger] tb[j],
            ) by {
                assert(tb[i] == b[i + 1] && tb[j] == b[j + 1]);
            }
        }
        lemma_sorted_same_elements(ta, tb);
        assert(a =~= seq![a[0]] + ta);
        assert(b =~= seq![b[0]] + tb);
    }
}

/// Two strictly sorted lists with the same elements are the same list:
/// a sorted, duplicate-free list is determined by the set of its elements.
pub proof fn lemma_sorted_unique_determined(a: Seq<Seq<char>>, b: Seq<Seq<char>>)
    requires
        strictly_sorted(a),
        strictly_sorted(b),
        a.to_set() == b.to_set(),
    ensures
        a == b,
{
    assert forall|x: Seq<char>| a.contains(x) <==> b.contains(x) by {
        assert(a.to_set().contains(x) == a.contains(x));
        assert(b.to_set().contains(x) == b.contains(x));
    }
    lemma_sorted_same_elements(a, b);
}

proof fn lemma_push_contains(s: Seq<Seq<char>>, x: Seq<char>)
    ensures
        forall|y: Seq<char>| #[trigger] s.push(x).contains(y) <==> s.contains(y) || y == x,
{
    assert forall|y: Seq<char>| #[trigger] s.push(x).contains(y) <==> s.contains(y) || y == x by {
        if s.push(x).contains(y) {
            let j = choose|j: int| 0 <= j < s.push(x).len() && s.push(x)[j] == y;
            if j < s.len() {
                assert(s[j] == y);
            }
        }
        if s.contains(y) {
            let j = choose|j: int| 0 <= j < s.len() && s[j] == y;
            assert(s.push(x)[j] == y);
        }
        if y == x {
            assert(s.push(x)[s.len() as int] == y);
        }
    }
}

/// The names sorted in lexicographic order, each once (what sorting and
/// then removing adjacent duplicates gives).
pub fn sorted_unique(items: Vec<String>) -> (r: Vec<String>)
    ensures
        strictly_sorted(views_of(r@)),
        views_of(r@).to_set() == views_of(items@).to_set(),
{
    let mut res: Vec<String> = Vec::new();
    let mut keys: Vec<Vec<char>> = Vec::new();
    let mut i: usize = 0;
    while i < items.len()
        invariant
            i <= items.len(),
            res.len() == keys.len(),
            forall|j: int| 0 <= j < keys.len() ==> (#[trigger] keys@[j])@ == res@[j]@,
            strictly_sorted(views_of(res@)),
            forall|x: Seq<char>|
                views_of(res@).contains(x) <==> views_of(items@.take(i as int)).contains(x),
        decreases items.len() - i,
    {
        let ghost old_v = views_of(res@);
        let x = chars_of(items[i].as_str());
        assert(x@ == items@[i as int]@);
        let mut k: usize = 0;
        while k < keys.len() && lex_less(&keys[k], &x)
            invariant
                k <= keys.len(),
                res.len() == keys.len(),
                old_v == views_of(res@),
                forall|j: int| 0 <= j < keys.len() ==> (#[trigger] keys@[j])@ == res@[j]@,
                forall|j: int| 0 <= j < k ==> lex_lt(#[trigger] old_v[j], x@),
            decreases keys.len() - k,
        {
            assert(keys@[k as int]@ == old_v[k as int]);
            k = k + 1;
        }
        let present = k < keys.len() && chars_eq(&keys[k], &x);
        proof {
            let prefix = views_of(items@.take(i as int));
            assert(views_of(items@.take(i + 1)) =~= prefix.push(x@));
            lemma_push_contains(prefix, x@);
        }
        if present {
            assert(old_v[k as int] == x@);
            assert(old_v.contains(x@));
        } else {
            proof {
                if k < keys.len() {
                    assert(keys@[k as int]@ == old_v[k as int]);
                    assert(!lex_lt(old_v[k as int], x@));
                    lemma_lex_total(old_v[k as int], x@);
                }
            }
            let ghost new_v = old_v.insert(k as int, x@);
            res.insert(k, items[i].clone());
            keys.insert(k, x);
            assert(views_of(res@) =~= new_v);
            assert forall|a: int, b: int| 0 <= a < b < new_v.len() implies lex_lt(
                #[trigger] new_v[a],
                #[trigger] new_v[b],
            ) by {
                if b < k {
                    assert(new_v[a] == old_v[a] && new_v[b] == old_v[b]);
                } else if b == k {
                    assert(new_v[a] == old_v[a]);
                } else if a == k {
                    assert(new_v[b] == old_v[b - 1]);
                    if b - 1 > k {
                        lemma_lex_transitive(x@, old_v[k as int], old_v[b - 1]);
                    }
                } else if a < k {
                    assert(new_v[a] == old_v[a] && new_v[b] == old_v[b - 1]);
                } else {
                    assert(new_v[a] == old_v[a - 1] && new_v[b] == old_v[b - 1]);
                }
            }
            assert forall|y: Seq<char>| new_v.contains(y) <==> old_v.contains(y) || y == x@ by {
                if new_v.contains(y) {
                    let j = choose|j: int| 0 <= j < new_v.len() && new_v[j] == y;
                    if j < k {
                        assert(old_v[j] == y);
                    } else if j > k {
                        assert(old_v[j - 1] == y);
                    }
                }
                if old_v.contains(y) {
                    let j = choose|j: int| 0 <= j < old_v.len() && old_v[j] == y;
                    if j < k {
                        assert(new_v[j] == y);
                    } else {
                        assert(new_v[j + 1] == y);
                    }
                }
                if y == x@ {
                    assert(new_v[k as int] == y);
                }
            }
        }
        i = i + 1;
    }
    assert(items@.take(i as int) =~= items@);
    assert(views_of(res@).to_set() =~= views_of(items@).to_set());
    res
}

} // verus!
