//! Orderings and the sorts that put archive parts in reading order: names
//! by `String` order (code point order, the order of their UTF-8 bytes) and
//! numbered parts by number, keeping equal numbers in archive order.
use vstd::prelude::*;

verus! {

broadcast use vstd::seq_lib::group_to_multiset_ensures;

/// `a` comes before `b` in code point order.
pub open spec fn lex_lt(a: Seq<char>, b: Seq<char>) -> bool
    decreases a.len(),
{
    if a.len() == 0 {
        b.len() > 0
    } else if b.len() == 0 {
        false
    } else if a[0] != b[0] {
        a[0] < b[0]
    } else {
        lex_lt(a.drop_first(), b.drop_first())
    }
}

pub proof fn lemma_lex_irreflexive(a: Seq<char>)
    ensures
        !lex_lt(a, a),
    decreases a.len(),
{
    if a.len() > 0 {
        lemma_lex_irreflexive(a.drop_first());
    }
}

pub proof fn lemma_lex_transitive(a: Seq<char>, b: Seq<char>, c: Seq<char>)
    requires
        lex_lt(a, b),
        lex_lt(b, c),
    ensures
        lex_lt(a, c),
    decreases a.len(),
{
    if a.len() > 0 && b.len() > 0 && c.len() > 0 {
        if a[0] == b[0] && b[0] == c[0] {
            lemma_lex_transitive(a.drop_first(), b.drop_first(), c.drop_first());
        }
    }
}

pub proof fn lemma_lex_total(a: Seq<char>, b: Seq<char>)
    ensures
        lex_lt(a, b) || a == b || lex_lt(b, a),
    decreases a.len(),
{
    if a.len() > 0 && b.len() > 0 {
        if a[0] == b[0] {
            lemma_lex_total(a.drop_first(), b.drop_first());
            if a.drop_first() == b.drop_first() {
                assert(a =~= seq![a[0]] + a.drop_first());
                assert(b =~= seq![b[0]] + b.drop_first());
            }
        }
    } else if a.len() == 0 && b.len() == 0 {
        assert(a =~= b);
    }
}

/// No element of `s` comes after a later one.
pub open spec fn sorted_lex(s: Seq<Seq<char>>) -> bool {
    forall|i: int, j: int| 0 <= i < j < s.len() ==> !lex_lt(s[j], s[i])
}

/// Order on (number, position) pairs: by number, then by position.
pub open spec fn pair_lt(a: (u32, usize), b: (u32, usize)) -> bool {
    a.0 < b.0 || (a.0 == b.0 && a.1 < b.1)
}

/// Strictly increasing in the pair order.
pub open spec fn sorted_pairs(s: Seq<(u32, usize)>) -> bool {
    forall|i: int, j: int| 0 <= i < j < s.len() ==> pair_lt(s[i], s[j])
}

/// `a` comes before `b` in code point order.
pub fn lex_less(a: &Vec<char>, b: &Vec<char>) -> (r: bool)
    ensures
        r == lex_lt(a@, b@),
{
    let mut i: usize = 0;
    assert(a@.skip(0) =~= a@);
    assert(b@.skip(0) =~= b@);
    while i < a.len() && i < b.len()
        invariant
            i <= a.len(),
            i <= b.len(),
            lex_lt(a@, b@) == lex_lt(a@.skip(i as int), b@.skip(i as int)),
        decreases a.len() - i,
    {
        if a[i] != b[i] {
            return a[i] < b[i];
        }
        assert(a@.skip(i as int).drop_first() =~= a@.skip(i + 1));
        assert(b@.skip(i as int).drop_first() =~= b@.skip(i + 1));
        i = i + 1;
    }
    i < b.len()
}

/// The strings in code point order.
pub fn sort_lex(v: Vec<Vec<char>>) -> (r: Vec<Vec<char>>)
    ensures
        sorted_lex(r@.map_values(|w: Vec<char>| w@)),
        r@.map_values(|w: Vec<char>| w@).to_multiset() == v@.map_values(
            |w: Vec<char>| w@,
        ).to_multiset(),
{
    let ghost vv = v@.map_values(|w: Vec<char>| w@);
    let mut r: Vec<Vec<char>> = Vec::new();
    let mut i: usize = 0;
    while i < v.len()
        invariant
            i <= v.len(),
            vv == v@.map_values(|w: Vec<char>| w@),
            sorted_lex(r@.map_values(|w: Vec<char>| w@)),
            r@.map_values(|w: Vec<char>| w@).to_multiset() == vv.take(i as int).to_multiset(),
        decreases v.len() - i,
    {
        let x = v[i].clone();
        let ghost rv = r@.map_values(|w: Vec<char>| w@);
        let mut k: usize = 0;
        while k < r.len() && !lex_less(&x, &r[k])
            invariant
                k <= r.len(),
                rv == r@.map_values(|w: Vec<char>| w@),
                forall|j: int| 0 <= j < k ==> !lex_lt(x@, rv[j]),
            decreases r.len() - k,
        {
            k = k + 1;
        }
        r.insert(k, x);
        let ghost nv = r@.map_values(|w: Vec<char>| w@);
        assert(nv =~= rv.insert(k as int, x@));
        assert forall|a: int, b: int| 0 <= a < b < nv.len() implies !lex_lt(nv[b], nv[a]) by {
            if b == k {
                assert(nv[a] == rv[a]);
            } else if a == k {
                assert(nv[b] == rv[b - 1]);
                if lex_lt(rv[b - 1], x@) {
                    assert(lex_lt(x@, rv[k as int]));
                    lemma_lex_transitive(rv[b - 1], x@, rv[k as int]);
                    if b - 1 == k {
                        lemma_lex_irreflexive(rv[k as int]);
                    }
                }
            } else if a < k && b < k {
                assert(nv[a] == rv[a] && nv[b] == rv[b]);
            } else if a < k {
                assert(nv[a] == rv[a] && nv[b] == rv[b - 1]);
            } else {
                assert(nv[a] == rv[a - 1] && nv[b] == rv[b - 1]);
            }
        }
        assert(vv.take(i + 1) =~= vv.take(i as int).push(x@));
        i = i + 1;
    }
    assert(vv.take(v.len() as int) =~= vv);
    r
}

/// The pairs in increasing pair order.
pub fn sort_pairs(v: Vec<(u32, usize)>) -> (r: Vec<(u32, usize)>)
    requires
        forall|i: int, j: int| 0 <= i < j < v.len() ==> v@[i] != v@[j],
    ensures
        sorted_pairs(r@),
        r@.to_multiset() == v@.to_multiset(),
{
    let mut r: Vec<(u32, usize)> = Vec::new();
    let mut i: usize = 0;
    while i < v.len()
        invariant
            i <= v.len(),
            forall|a: int, b: int| 0 <= a < b < v.len() ==> v@[a] != v@[b],
            sorted_pairs(r@),
            r@.to_multiset() == v@.take(i as int).to_multiset(),
        decreases v.len() - i,
    {
        let x = v[i];
        let mut k: usize = 0;
        while k < r.len() && !(x.0 < r[k].0 || (x.0 == r[k].0 && x.1 < r[k].1))
            invariant
                k <= r.len(),
                forall|j: int| 0 <= j < k ==> !pair_lt(x, r@[j]),
            decreases r.len() - k,
        {
            k = k + 1;
        }
        proof {
            // `x` differs from every pair already placed.
            assert forall|j: int| 0 <= j < r.len() implies r@[j] != x by {
                if r@[j] == x {
                    assert(v@.take(i as int).to_multiset().count(x) > 0);
                    assert(v@.take(i as int).contains(x));
                    let m = choose|m: int| 0 <= m < i && v@.take(i as int)[m] == x;
                    assert(v@[m] == v@[i as int]);
                }
            }
        }
        let ghost rv = r@;
        r.insert(k, x);
        assert(r@ =~= rv.insert(k as int, x));
        assert forall|a: int, b: int| 0 <= a < b < r@.len() implies pair_lt(r@[a], r@[b]) by {
            if b == k {
                assert(r@[a] == rv[a]);
                assert(!pair_lt(x, rv[a]) && rv[a] != x);
            } else if a == k {
                assert(r@[b] == rv[b - 1]);
                assert(pair_lt(x, rv[k as int]));
                if b - 1 > k {
                    assert(pair_lt(rv[k as int], rv[b - 1]));
                }
            } else if a < k && b < k {
                assert(r@[a] == rv[a] && r@[b] == rv[b]);
            } else if a < k {
                assert(r@[a] == rv[a] && r@[b] == rv[b - 1]);
            } else {
                assert(r@[a] == rv[a - 1] && r@[b] == rv[b - 1]);
            }
        }
        assert(v@.take(i + 1) =~= v@.take(i as int).push(x));
        i = i + 1;
    }
    assert(v@.take(v.len() as int) =~= v@);
    r
}


/// Sorting determines the order: two sorted sequences with the same
/// elements, counted with repeats, are the same sequence.
pub proof fn law_sorted_lex_unique(a: Seq<Seq<char>>, b: Seq<Seq<char>>)
    requires
        sorted_lex(a),
        sorted_lex(b),
        a.to_multiset() == b.to_multiset(),
    ensures
        a == b,
    decreases a.len(),
{
    a.to_multiset_ensures();
    b.to_multiset_ensures();
    if a.len() == 0 {
        assert(b.len() == 0);
        assert(a =~= b);
    } else {
        assert(b.len() == a.len());
        let x = a.last();
        let y = b.last();
        assert(a.contains(x)) by {
            assert(a[a.len() - 1] == x);
        }
        assert(b.contains(y)) by {
            assert(b[b.len() - 1] == y);
        }
        assert(b.to_multiset().count(x) > 0);
        assert(a.to_multiset().count(y) > 0);
        let i = choose|i: int| 0 <= i < b.len() && b[i] == x;
        let j = choose|j: int| 0 <= j < a.len() && a[j] == y;
        // x comes no earlier than y, and y no earlier than x.
        assert(!lex_lt(y, x)) by {
            if i < b.len() - 1 {
                assert(!lex_lt(b[b.len() - 1], b[i]));
            } else {
                lemma_lex_irreflexive(x);
            }
        }
        assert(!lex_lt(x, y)) by {
            if j < a.len() - 1 {
                assert(!lex_lt(a[a.len() - 1], a[j]));
            } else {
                lemma_lex_irreflexive(y);
            }
        }
        lemma_lex_total(x, y);
        assert(x == y);
        let a1 = a.drop_last();
        let b1 = b.drop_last();
        assert(a =~= a1.push(x));
        assert(b =~= b1.push(y));
        a1.to_multiset_ensures();
        b1.to_multiset_ensures();
        assert(a1.to_multiset() =~= a.to_multiset().remove(x));
        assert(b1.to_multiset() =~= b.to_multiset().remove(y));
        law_sorted_lex_unique(a1, b1);
    }
}

/// The slide order is determined: two strictly increasing sequences of
/// pairs with the same elements are the same sequence.
pub proof fn law_sorted_pairs_unique(a: Seq<(u32, usize)>, b: Seq<(u32, usize)>)
    requires
        sorted_pairs(a),
        sorted_pairs(b),
        a.to_multiset() == b.to_multiset(),
    ensures
        a == b,
    decreases a.len(),
{
    a.to_multiset_ensures();
    b.to_multiset_ensures();
    if a.len() == 0 {
        assert(b.len() == 0);
        assert(a =~= b);
    } else {
        assert(b.len() == a.len());
        let x = a.last();
        let y = b.last();
        assert(a[a.len() - 1] == x);
        assert(b[b.len() - 1] == y);
        assert(a.contains(x));
        assert(b.contains(y));
        assert(b.to_multiset().count(x) > 0);
        assert(a.to_multiset().count(y) > 0);
        let i = choose|i: int| 0 <= i < b.len() && b[i] == x;
        let j = choose|j: int| 0 <= j < a.len() && a[j] == y;
        assert(!pair_lt(y, x)) by {
            if i < b.len() - 1 {
                assert(pair_lt(b[i], b[b.len() - 1]));
            }
        }
        assert(!pair_lt(x, y)) by {
            if j < a.len() - 1 {
                assert(pair_lt(a[j], a[a.len() - 1]));
            }
        }
        assert(x == y);
        let a1 = a.drop_last();
        let b1 = b.drop_last();
        assert(a =~= a1.push(x));
        assert(b =~= b1.push(y));
        a1.to_multiset_ensures();
        b1.to_multiset_ensures();
        assert(a1.to_multiset() =~= a.to_multiset().remove(x));
        assert(b1.to_multiset() =~= b.to_multiset().remove(y));
        law_sorted_pairs_unique(a1, b1);
    }
}

} // verus!
