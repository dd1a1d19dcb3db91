//! Sorted lists without repetitions.
use vstd::prelude::*;
use crate::text::chars_of;

verus! {

/// Whether a list of numbers goes strictly up.
pub open spec fn increasing(s: Seq<u64>) -> bool {
    forall|i: int, j: int| 0 <= i < j < s.len() ==> s[i] < s[j]
}

/// Whether `r` is the values of `s`, each once, in order.
pub open spec fn sorted_values(r: Seq<u64>, s: Seq<u64>) -> bool {
    increasing(r) && forall|x: u64| #![trigger r.contains(x)] #![trigger s.contains(x)] r.contains(x) <==> s.contains(x)
}

/// Two sorted lists of the same values are the same list.
pub proof fn law_sorted_values_unique(a: Seq<u64>, b: Seq<u64>, s: Seq<u64>)
    requires
        sorted_values(a, s),
        sorted_values(b, s),
    ensures
        a == b,
    decreases a.len() + b.len(),
{
    if a.len() > 0 && b.len() > 0 {
        let x = a.last();
        let y = b.last();
        assert(a.contains(x) && b.contains(y));
        assert(s.contains(x) && s.contains(y));
        assert(b.contains(x) && a.contains(y));
        let i = b.index_of(x);
        let j = a.index_of(y);
        assert(b[i] == x && a[j] == y);
        assert(x <= y) by {
            if i < b.len() - 1 {
                assert(b[i] < b[b.len() - 1]);
            }
        }
        assert(y <= x) by {
            if j < a.len() - 1 {
                assert(a[j] < a[a.len() - 1]);
            }
        }
        let a2 = a.drop_last();
        let b2 = b.drop_last();
        assert forall|v: u64| #![trigger a2.contains(v)] #![trigger b2.contains(v)] a2.contains(v) <==> b2.contains(v) by {
            lemma_without_last(a, v);
            lemma_without_last(b, v);
            assert(a.contains(v) <==> s.contains(v));
            assert(b.contains(v) <==> s.contains(v));
        }
        law_sorted_values_unique(a2, b2, a2);
        assert(a =~= a2.push(x));
        assert(b =~= b2.push(y));
    } else if a.len() > 0 {
        assert(a.contains(a[0]));
        assert(s.contains(a[0]));
        assert(b.contains(a[0]));
    } else if b.len() > 0 {
        assert(b.contains(b[0]));
        assert(s.contains(b[0]));
        assert(a.contains(b[0]));
    } else {
        assert(a =~= b);
    }
}

proof fn lemma_without_last(a: Seq<u64>, v: u64)
    requires
        increasing(a),
        a.len() > 0,
    ensures
        a.drop_last().contains(v) <==> a.contains(v) && v != a.last(),
{
    let t = a.drop_last();
    if t.contains(v) {
        let i = t.index_of(v);
        assert(a[i] == v);
        assert(a[i] < a[a.len() - 1]);
    }
    if a.contains(v) && v != a.last() {
        let i = a.index_of(v);
        assert(a[i] == v);
        assert(t[i] == v);
    }
}

/// Sorts numbers and leaves repetitions out.
pub fn sorted_distinct(v: &[u64]) -> (r: Vec<u64>)
    ensures
        sorted_values(r@, v@),
        r@.len() <= v@.len(),
{
    let mut r: Vec<u64> = Vec::new();
    let mut i: usize = 0;
    while i < v.len()
        invariant
            i <= v@.len(),
            r@.len() <= i,
            sorted_values(r@, v@.take(i as int)),
        decreases v@.len() - i,
    {
        let x: u64 = v[i];
        let n: usize = r.len();
        let mut k: usize = 0;
        while k < n && r[k] < x
            invariant
                k <= n,
                n == r@.len(),
                increasing(r@),
                forall|j: int| 0 <= j < k ==> r@[j] < x,
            decreases n - k,
        {
            k += 1;
        }
        let ghost before = r@;
        let ghost seen = v@.take(i as int);
        assert(v@.take(i + 1) =~= seen.push(x));
        if k < n && r[k] == x {
            proof {
                assert(r@.contains(x)) by {
                    assert(r@[k as int] == x);
                }
                assert forall|y: u64| #![trigger r@.contains(y)] #![trigger seen.push(x).contains(y)] r@.contains(y)
                    <==> seen.push(x).contains(y) by {
                    lemma_push_contains(seen, x, y);
                    assert(r@.contains(y) <==> seen.contains(y));
                }
            }
        } else {
            r.insert(k, x);
            proof {
                assert(r@ =~= before.insert(k as int, x));
                assert forall|a: int, b: int| 0 <= a < b < r@.len() implies r@[a] < r@[b] by {
                    let a0 = if a < k { a } else { a - 1 };
                    let b0 = if b < k { b } else { b - 1 };
                    if a != k && b != k {
                        assert(before[a0] < before[b0]);
                    } else if b == k {
                        assert(before[a] < x);
                    } else {
                        assert(x < before[k as int]);
                        if b0 > k {
                            assert(before[k as int] < before[b0]);
                        }
                    }
                }
                assert forall|y: u64| #![trigger r@.contains(y)] #![trigger seen.push(x).contains(y)] r@.contains(y)
                    <==> seen.push(x).contains(y) by {
                    lemma_push_contains(seen, x, y);
                    lemma_insert_contains(before, k as int, x, y);
                    assert(before.contains(y) <==> seen.contains(y));
                }
            }
        }
        i += 1;
    }
    assert(v@.take(v@.len() as int) =~= v@);
    r
}

proof fn lemma_push_contains<T>(s: Seq<T>, x: T, y: T)
    ensures
        s.push(x).contains(y) <==> s.contains(y) || x == y,
{
    let p = s.push(x);
    if s.contains(y) {
        let i = s.index_of(y);
        assert(p[i] == y);
    }
    if x == y {
        assert(p[s.len() as int] == y);
    }
    if p.contains(y) && x != y {
        let i = p.index_of(y);
        assert(s[i] == y);
    }
}

proof fn lemma_insert_contains<T>(s: Seq<T>, k: int, x: T, y: T)
    requires
        0 <= k <= s.len(),
    ensures
        s.insert(k, x).contains(y) <==> s.contains(y) || x == y,
{
    let p = s.insert(k, x);
    if s.contains(y) {
        let i = s.index_of(y);
        assert(p[if i < k { i } else { i + 1 }] == y);
    }
    if x == y {
        assert(p[k] == y);
    }
    if p.contains(y) && x != y {
        let i = p.index_of(y);
        assert(s[if i < k { i } else { i - 1 }] == y);
    }
}

// ----------------------------------------------------------------- names
/// Alphabetical order: a proper prefix comes first.
pub open spec fn comes_before(a: Seq<char>, b: Seq<char>) -> bool
    decreases b.len(),
{
    if b.len() == 0 {
        false
    } else if a.len() == 0 {
        true
    } else if a[0] != b[0] {
        a[0] < b[0]
    } else {
        comes_before(a.skip(1), b.skip(1))
    }
}

pub proof fn lemma_order_total(a: Seq<char>, b: Seq<char>)
    ensures
        a == b || comes_before(a, b) || comes_before(b, a),
        !(comes_before(a, b) && comes_before(b, a)),
        !comes_before(a, a),
    decreases b.len(),
{
    if a.len() > 0 && b.len() > 0 {
        lemma_order_total(a.skip(1), b.skip(1));
        lemma_order_irreflexive(a);
        if a[0] == b[0] && a.skip(1) == b.skip(1) {
            assert(a =~= seq![a[0]] + a.skip(1));
            assert(b =~= seq![b[0]] + b.skip(1));
        }
    } else if a.len() == 0 && b.len() == 0 {
        assert(a =~= b);
    } else {
        lemma_order_irreflexive(a);
    }
}

proof fn lemma_order_irreflexive(a: Seq<char>)
    ensures
        !comes_before(a, a),
    decreases a.len(),
{
    if a.len() > 0 {
        lemma_order_irreflexive(a.skip(1));
    }
}

pub proof fn lemma_order_transitive(a: Seq<char>, b: Seq<char>, c: Seq<char>)
    requires
        comes_before(a, b),
        comes_before(b, c),
    ensures
        comes_before(a, c),
    decreases c.len(),
{
    if a.len() > 0 && a[0] == b[0] && b[0] == c[0] {
        lemma_order_transitive(a.skip(1), b.skip(1), c.skip(1));
    }
}

/// Whether one text comes before another.
pub fn precedes(a: &[char], b: &[char]) -> (r: bool)
    ensures
        r == comes_before(a@, b@),
{
    let mut i: usize = 0;
    assert(a@.skip(0) =~= a@);
    assert(b@.skip(0) =~= b@);
    while i < a.len() && i < b.len()
        invariant
            i <= a@.len(),
            i <= b@.len(),
            comes_before(a@.skip(i as int), b@.skip(i as int)) == comes_before(a@, b@),
        decreases b@.len() - i,
    {
        assert(a@.skip(i as int).skip(1) =~= a@.skip(i + 1));
        assert(b@.skip(i as int).skip(1) =~= b@.skip(i + 1));
        if a[i] != b[i] {
            return a[i] < b[i];
        }
        i += 1;
    }
    i < b.len()
}

/// Whether two texts are the same.
pub fn same(a: &[char], b: &[char]) -> (r: bool)
    ensures
        r == (a@ == b@),
{
    if a.len() != b.len() {
        return false;
    }
    let mut i: usize = 0;
    while i < a.len()
        invariant
            i <= a@.len(),
            a@.len() == b@.len(),
            forall|j: int| 0 <= j < i ==> a@[j] == b@[j],
        decreases a@.len() - i,
    {
        if a[i] != b[i] {
            return false;
        }
        i += 1;
    }
    assert(a@ =~= b@);
    true
}

/// The texts of a list of strings.
pub open spec fn texts_of(v: Seq<String>) -> Seq<Seq<char>> {
    Seq::new(v.len(), |i: int| v[i]@)
}

/// The texts of a list of character lists.
pub open spec fn char_lists(v: Seq<Vec<char>>) -> Seq<Seq<char>> {
    Seq::new(v.len(), |i: int| v[i]@)
}

/// Whether a list of texts is in strict alphabetical order.
pub open spec fn alphabetical(s: Seq<Seq<char>>) -> bool {
    forall|i: int, j: int| 0 <= i < j < s.len() ==> comes_before(#[trigger] s[i], #[trigger] s[j])
}

/// Whether `r` is the texts of `s`, each once, in alphabetical order.
pub open spec fn sorted_texts(r: Seq<Seq<char>>, s: Seq<Seq<char>>) -> bool {
    alphabetical(r) && forall|x: Seq<char>|
        #![trigger r.contains(x)]
        #![trigger s.contains(x)]
        r.contains(x) <==> s.contains(x)
}

/// Sorts texts and leaves repetitions out.
pub fn sorted_names(v: &[String]) -> (r: Vec<Vec<char>>)
    ensures
        sorted_texts(char_lists(r@), texts_of(v@)),
        r@.len() <= v@.len(),
{
    let ghost all = texts_of(v@);
    let mut r: Vec<Vec<char>> = Vec::new();
    let mut i: usize = 0;
    assert(char_lists(r@) =~= Seq::<Seq<char>>::empty());
    assert(all.take(0) =~= Seq::<Seq<char>>::empty());
    while i < v.len()
        invariant
            i <= v@.len(),
            r@.len() <= i,
            all == texts_of(v@),
            sorted_texts(char_lists(r@), all.take(i as int)),
        decreases v@.len() - i,
    {
        let x: Vec<char> = chars_of(v[i].as_str());
        let ghost xs = x@;
        let n: usize = r.len();
        let ghost list = char_lists(r@);
        let mut k: usize = 0;
        while k < n && precedes(r[k].as_slice(), x.as_slice())
            invariant
                k <= n,
                n == r@.len(),
                xs == x@,
                list == char_lists(r@),
                forall|j: int| 0 <= j < k ==> comes_before(#[trigger] list[j], xs),
            decreases n - k,
        {
            assert(list[k as int] == r@[k as int]@);
            k += 1;
        }
        let ghost seen = all.take(i as int);
        assert(all.take(i + 1) =~= seen.push(xs));
        if k < n && same(r[k].as_slice(), x.as_slice()) {
            proof {
                assert(list[k as int] == xs);
                assert(list.contains(xs));
                assert forall|y: Seq<char>| #![trigger list.contains(y)] #![trigger seen.push(xs).contains(y)] list.contains(y)
                    <==> seen.push(xs).contains(y) by {
                    lemma_push_contains(seen, xs, y);
                    assert(list.contains(y) <==> seen.contains(y));
                }
            }
        } else {
            proof {
                if k < n {
                    assert(list[k as int] == r@[k as int]@);
                    lemma_order_total(list[k as int], xs);
                }
            }
            r.insert(k, x);
            proof {
                let now = char_lists(r@);
                assert(now =~= list.insert(k as int, xs));
                assert forall|a: int, b: int| 0 <= a < b < now.len() implies comes_before(#[trigger] now[a], #[trigger] now[b]) by {
                    let a0 = if a < k { a } else { a - 1 };
                    let b0 = if b < k { b } else { b - 1 };
                    if a != k && b != k {
                        assert(comes_before(list[a0], list[b0]));
                    } else if b == k {
                        assert(comes_before(list[a], xs));
                    } else {
                        assert(comes_before(xs, list[k as int]));
                        if b0 > k {
                            assert(comes_before(list[k as int], list[b0]));
                            lemma_order_transitive(xs, list[k as int], list[b0]);
                        }
                    }
                }
                assert forall|y: Seq<char>| #![trigger now.contains(y)] #![trigger seen.push(xs).contains(y)] now.contains(y)
                    <==> seen.push(xs).contains(y) by {
                    lemma_push_contains(seen, xs, y);
                    lemma_insert_contains(list, k as int, xs, y);
                    assert(list.contains(y) <==> seen.contains(y));
                }
            }
        }
        i += 1;
    }
    assert(all.take(v@.len() as int) =~= all);
    r
}

} // verus!
