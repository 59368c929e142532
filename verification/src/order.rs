//! Lexicographic ordering of node identifiers, and a verified insertion sort.
//!
//! Identifiers are compared code point by code point, which coincides with
//! the byte-wise ordering of their UTF-8 encodings.

use vstd::prelude::*;

verus! {

/// `a` comes no later than `b` in lexicographic (code-point) order.
pub open spec fn lex_le(a: Seq<char>, b: Seq<char>) -> bool
    decreases a.len(),
{
    if a.len() == 0 {
        true
    } else if b.len() == 0 {
        false
    } else if a[0] == b[0] {
        lex_le(a.drop_first(), b.drop_first())
    } else {
        (a[0] as u32) < (b[0] as u32)
    }
}

/// Adjacent elements are in lexicographic order, so the whole sequence is.
pub open spec fn sorted_lex(s: Seq<Seq<char>>) -> bool {
    forall|i: int| 0 <= i < s.len() - 1 ==> #[trigger] lex_le(s[i], s[i + 1])
}

/// `x` placed into the already sorted sequence `s`, before every element
/// that is strictly greater.
pub open spec fn insert_sorted(s: Seq<Seq<char>>, x: Seq<char>) -> Seq<Seq<char>>
    decreases s.len(),
{
    if s.len() == 0 {
        seq![x]
    } else if lex_le(s.last(), x) {
        s.push(x)
    } else {
        insert_sorted(s.drop_last(), x).push(s.last())
    }
}

/// The sequence rearranged into lexicographic order by repeated insertion.
pub open spec fn sort_ids(s: Seq<Seq<char>>) -> Seq<Seq<char>>
    decreases s.len(),
{
    if s.len() == 0 {
        Seq::empty()
    } else {
        insert_sorted(sort_ids(s.drop_last()), s.last())
    }
}

/// Any two identifiers are comparable: the order is total.
pub proof fn lemma_lex_le_total(a: Seq<char>, b: Seq<char>)
    ensures
        lex_le(a, b) || lex_le(b, a),
    decreases a.len(),
{
    if a.len() == 0 {
    } else if b.len() == 0 {
    } else if a[0] == b[0] {
        lemma_lex_le_total(a.drop_first(), b.drop_first());
    } else {
        vstd::utf8::char_u32_cast(a[0], a[0] as u32);
        vstd::utf8::char_u32_cast(b[0], b[0] as u32);
        assert((a[0] as u32) != (b[0] as u32));
    }
}

/// The order is reflexive.
pub proof fn lemma_lex_le_refl(a: Seq<char>)
    ensures
        lex_le(a, a),
    decreases a.len(),
{
    if a.len() > 0 {
        lemma_lex_le_refl(a.drop_first());
    }
}

/// Inserting into a sorted sequence keeps it sorted.
pub proof fn lemma_insert_sorted_sorted(s: Seq<Seq<char>>, x: Seq<char>)
    requires
        sorted_lex(s),
    ensures
        sorted_lex(insert_sorted(s, x)),
    decreases s.len(),
{
    if s.len() == 0 {
    } else if lex_le(s.last(), x) {
        let r = s.push(x);
        assert forall|i: int| 0 <= i < r.len() - 1 implies #[trigger] lex_le(r[i], r[i + 1]) by {
            if i < s.len() - 1 {
                assert(lex_le(s[i], s[i + 1]));
            }
        }
    } else {
        let t = s.drop_last();
        assert(sorted_lex(t));
        lemma_insert_sorted_sorted(t, x);
        let u = insert_sorted(t, x);
        let r = u.push(s.last());
        lemma_lex_le_total(s.last(), x);
        assert(lex_le(x, s.last()));
        lemma_insert_sorted_last(t, x);
        assert forall|i: int| 0 <= i < r.len() - 1 implies #[trigger] lex_le(r[i], r[i + 1]) by {
            if i < u.len() - 1 {
                assert(lex_le(u[i], u[i + 1]));
            } else {
                assert(r[i] == u.last());
                if t.len() > 0 {
                    let j = s.len() - 2;
                    assert(lex_le(s[j], s[j + 1]));
                    assert(t.last() == s[j]);
                    assert(s.last() == s[j + 1]);
                }
                assert(lex_le(u.last(), s.last()));
            }
        }
    }
}

/// The last element after insertion is the larger of `x` and the old last.
pub proof fn lemma_insert_sorted_last(s: Seq<Seq<char>>, x: Seq<char>)
    requires
        sorted_lex(s),
    ensures
        s.len() == 0 ==> insert_sorted(s, x).last() == x,
        s.len() > 0 ==> insert_sorted(s, x).last() == x || insert_sorted(s, x).last() == s.last(),
        s.len() > 0 ==> lex_le(s.last(), insert_sorted(s, x).last()),
        lex_le(x, insert_sorted(s, x).last()),
    decreases s.len(),
{
    lemma_lex_le_refl(x);
    if s.len() == 0 {
    } else if lex_le(s.last(), x) {
    } else {
        lemma_lex_le_total(s.last(), x);
        lemma_lex_le_refl(s.last());
    }
}

/// Insertion adds exactly the new element: the contents are preserved.
pub proof fn lemma_insert_sorted_multiset(s: Seq<Seq<char>>, x: Seq<char>)
    ensures
        insert_sorted(s, x).to_multiset() =~= s.to_multiset().insert(x),
    decreases s.len(),
{
    broadcast use vstd::seq_lib::group_seq_properties;

    if s.len() == 0 {
        assert(seq![x] =~= Seq::<Seq<char>>::empty().push(x));
        Seq::<Seq<char>>::empty().to_multiset_ensures();
    } else if lex_le(s.last(), x) {
        s.to_multiset_ensures();
    } else {
        let t = s.drop_last();
        lemma_insert_sorted_multiset(t, x);
        let u = insert_sorted(t, x);
        u.to_multiset_ensures();
        t.to_multiset_ensures();
        assert(s =~= t.push(s.last()));
        assert(u.push(s.last()).to_multiset() =~= u.to_multiset().insert(s.last()));
        assert(u.to_multiset() =~= t.to_multiset().insert(x));
        assert(s.to_multiset() =~= t.to_multiset().insert(s.last()));
    }
}

/// Sorting yields a sequence in lexicographic order.
pub proof fn lemma_sort_ids_sorted(s: Seq<Seq<char>>)
    ensures
        sorted_lex(sort_ids(s)),
    decreases s.len(),
{
    if s.len() == 0 {
    } else {
        lemma_sort_ids_sorted(s.drop_last());
        lemma_insert_sorted_sorted(sort_ids(s.drop_last()), s.last());
    }
}

/// Sorting is a permutation: no identifier appears or disappears.
pub proof fn lemma_sort_ids_permutes(s: Seq<Seq<char>>)
    ensures
        sort_ids(s).to_multiset() =~= s.to_multiset(),
    decreases s.len(),
{
    if s.len() == 0 {
        assert(s =~= Seq::<Seq<char>>::empty());
    } else {
        let t = s.drop_last();
        lemma_sort_ids_permutes(t);
        lemma_insert_sorted_multiset(sort_ids(t), s.last());
        t.to_multiset_ensures();
        assert(s =~= t.push(s.last()));
        s.to_multiset_ensures();
        assert(s.to_multiset() =~= t.to_multiset().insert(s.last()));
        assert(sort_ids(s) == insert_sorted(sort_ids(t), s.last()));
        assert(sort_ids(t).to_multiset() == t.to_multiset());
        assert(sort_ids(s).to_multiset() =~= t.to_multiset().insert(s.last()));
    }
}

/// Compares two identifiers, character by character.
pub fn str_lex_le(a: &str, b: &str) -> (r: bool)
    ensures
        r == lex_le(a@, b@),
{
    let alen = a.unicode_len();
    let blen = b.unicode_len();
    let mut i: usize = 0;
    proof {
        assert(a@.skip(0) =~= a@);
        assert(b@.skip(0) =~= b@);
    }
    loop
        invariant
            i <= alen,
            i <= blen,
            alen == a@.len(),
            blen == b@.len(),
            lex_le(a@, b@) == lex_le(a@.skip(i as int), b@.skip(i as int)),
        decreases alen - i,
    {
        if i >= alen {
            assert(a@.skip(i as int).len() == 0);
            return true;
        }
        if i >= blen {
            assert(b@.skip(i as int).len() == 0);
            assert(a@.skip(i as int).len() > 0);
            return false;
        }
        let ca = a.get_char(i);
        let cb = b.get_char(i);
        assert(a@.skip(i as int)[0] == a@[i as int]);
        assert(b@.skip(i as int)[0] == b@[i as int]);
        if ca as u32 != cb as u32 {
            proof {
                vstd::utf8::char_u32_cast(ca, ca as u32);
                vstd::utf8::char_u32_cast(cb, cb as u32);
            }
            return (ca as u32) < (cb as u32);
        }
        proof {
            vstd::utf8::char_u32_cast(ca, ca as u32);
            vstd::utf8::char_u32_cast(cb, cb as u32);
            assert(ca == cb);
            assert(a@.skip(i as int).drop_first() =~= a@.skip(i as int + 1));
            assert(b@.skip(i as int).drop_first() =~= b@.skip(i as int + 1));
        }
        i = i + 1;
    }
}

/// The views of a sequence of strings.
pub open spec fn views(s: Seq<String>) -> Seq<Seq<char>> {
    s.map_values(|x: String| x@)
}

/// Places `x` into the sorted vector `v`.
pub fn insert_string_sorted(v: Vec<String>, x: String) -> (r: Vec<String>)
    ensures
        views(r@) == insert_sorted(views(v@), x@),
    decreases v@.len(),
{
    let mut v = v;
    if v.len() == 0 {
        proof {
            assert(views(v@).len() == 0);
        }
        v.push(x);
        proof {
            assert(views(v@) =~~= seq![x@]);
        }
        v
    } else {
        let ghost old_v = v@;
        let n = v.len();
        if str_lex_le(&v[n - 1], &x) {
            proof {
                assert(views(old_v).last() == old_v[old_v.len() - 1]@);
            }
            v.push(x);
            proof {
                assert(views(v@) =~~= views(old_v).push(x@));
            }
            v
        } else {
            let last = v.pop().unwrap();
            proof {
                assert(views(old_v).last() == last@);
                assert(views(v@) =~~= views(old_v).drop_last());
            }
            let mut r = insert_string_sorted(v, x);
            let ghost mid = r@;
            r.push(last);
            proof {
                assert(views(r@) =~~= views(mid).push(last@));
            }
            r
        }
    }
}

/// Sorts the identifiers into lexicographic order by repeated insertion.
pub fn sort_strings(v: &Vec<String>) -> (r: Vec<String>)
    ensures
        views(r@) == sort_ids(views(v@)),
{
    let mut out: Vec<String> = Vec::new();
    let mut i: usize = 0;
    while i < v.len()
        invariant
            i <= v@.len(),
            views(out@) == sort_ids(views(v@).take(i as int)),
        decreases v@.len() - i,
    {
        let x = v[i].clone();
        proof {
            let vs = views(v@);
            assert(vs.take(i as int + 1).drop_last() =~~= vs.take(i as int));
            assert(vs.take(i as int + 1).last() == v@[i as int]@);
            assert(x@ == v@[i as int]@);
        }
        out = insert_string_sorted(out, x);
        i = i + 1;
    }
    proof {
        assert(views(v@).take(v@.len() as int) =~~= views(v@));
    }
    out
}

} // verus!
