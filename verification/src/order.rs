//! The order of strings that `str`'s `Ord` gives: lexicographic over the
//! characters. (UTF-8 keeps the order of code points, so comparing the bytes,
//! as `str` does, and comparing the characters agree.)
use vstd::prelude::*;
use vstd::relations::*;
use crate::text::{chars_of, texts};

verus! {

/// `a` comes before `b` or equals it, character by character.
pub open spec fn chars_le(a: Seq<char>, b: Seq<char>) -> bool
    decreases a.len(),
{
    if a.len() == 0 {
        true
    } else if b.len() == 0 {
        false
    } else if a[0] != b[0] {
        a[0] < b[0]
    } else {
        chars_le(a.drop_first(), b.drop_first())
    }
}

/// `chars_le` as a relation.
pub open spec fn text_order() -> spec_fn(Seq<char>, Seq<char>) -> bool {
    |a: Seq<char>, b: Seq<char>| chars_le(a, b)
}

proof fn lemma_le_reflexive(a: Seq<char>)
    ensures
        chars_le(a, a),
    decreases a.len(),
{
    if a.len() > 0 {
        lemma_le_reflexive(a.drop_first());
    }
}

proof fn lemma_le_antisymmetric(a: Seq<char>, b: Seq<char>)
    requires
        chars_le(a, b),
        chars_le(b, a),
    ensures
        a == b,
    decreases a.len(),
{
    if a.len() > 0 && b.len() > 0 {
        lemma_le_antisymmetric(a.drop_first(), b.drop_first());
        assert(a =~= seq![a[0]] + a.drop_first());
        assert(b =~= seq![b[0]] + b.drop_first());
    }
    assert(a =~= b);
}

proof fn lemma_le_transitive(a: Seq<char>, b: Seq<char>, c: Seq<char>)
    requires
        chars_le(a, b),
        chars_le(b, c),
    ensures
        chars_le(a, c),
    decreases a.len(),
{
    if a.len() > 0 && b.len() > 0 && c.len() > 0 && a[0] == b[0] && b[0] == c[0] {
        lemma_le_transitive(a.drop_first(), b.drop_first(), c.drop_first());
    }
}

proof fn lemma_le_total(a: Seq<char>, b: Seq<char>)
    ensures
        chars_le(a, b) || chars_le(b, a),
    decreases a.len(),
{
    if a.len() > 0 && b.len() > 0 && a[0] == b[0] {
        lemma_le_total(a.drop_first(), b.drop_first());
    }
}

/// `chars_le` is a total order.
pub proof fn lemma_text_order_total()
    ensures
        total_ordering(text_order()),
{
    assert forall|a: Seq<char>| #[trigger] text_order()(a, a) by {
        lemma_le_reflexive(a);
    }
    assert forall|a: Seq<char>, b: Seq<char>|
        #[trigger] text_order()(a, b) && #[trigger] text_order()(b, a) implies a == b by {
        lemma_le_antisymmetric(a, b);
    }
    assert forall|a: Seq<char>, b: Seq<char>, c: Seq<char>|
        #[trigger] text_order()(a, b) && #[trigger] text_order()(b, c) implies text_order()(
        a,
        c,
    ) by {
        lemma_le_transitive(a, b, c);
    }
    assert forall|a: Seq<char>, b: Seq<char>|
        #[trigger] text_order()(a, b) || #[trigger] text_order()(b, a) by {
        lemma_le_total(a, b);
    }
}

proof fn lemma_le_skip(a: Seq<char>, b: Seq<char>, i: int)
    requires
        0 <= i <= a.len(),
        i <= b.len(),
        a.take(i) == b.take(i),
    ensures
        chars_le(a, b) == chars_le(a.skip(i), b.skip(i)),
    decreases i,
{
    if i > 0 {
        assert(a[0] == a.take(i)[0]);
        assert(b[0] == b.take(i)[0]);
        assert(a.drop_first().take(i - 1) =~= a.take(i).drop_first());
        assert(b.drop_first().take(i - 1) =~= b.take(i).drop_first());
        lemma_le_skip(a.drop_first(), b.drop_first(), i - 1);
        assert(a.drop_first().skip(i - 1) =~= a.skip(i));
        assert(b.drop_first().skip(i - 1) =~= b.skip(i));
    } else {
        assert(a.skip(0) =~= a);
        assert(b.skip(0) =~= b);
    }
}

/// Whether `a` comes before `b` or equals it.
pub fn text_le(a: &str, b: &str) -> (res: bool)
    ensures
        res == chars_le(a@, b@),
{
    let x = chars_of(a);
    let y = chars_of(b);
    let mut i: usize = 0;
    while i < x.len() && i < y.len() && x[i] == y[i]
        invariant
            x@ == a@,
            y@ == b@,
            i <= x.len(),
            i <= y.len(),
            x@.take(i as int) == y@.take(i as int),
        decreases x.len() - i,
    {
        assert(x@.take(i + 1) =~= x@.take(i as int).push(x@[i as int]));
        assert(y@.take(i + 1) =~= y@.take(i as int).push(y@[i as int]));
        i = i + 1;
    }
    proof {
        lemma_le_skip(a@, b@, i as int);
    }
    if i == x.len() {
        true
    } else if i == y.len() {
        false
    } else {
        x[i] < y[i]
    }
}

/// The strings of `v` in ascending order: the same strings, each as often,
/// ordered by `chars_le`, as `sort` orders a vector of strings.
pub fn sort_texts(v: Vec<String>) -> (res: Vec<String>)
    ensures
        res@.to_multiset() == v@.to_multiset(),
        sorted_by(texts(res@), text_order()),
        texts(res@) == texts(v@).sort_by(text_order()),
{
    proof {
        lemma_text_order_total();
    }
    let mut res: Vec<String> = Vec::new();
    let n = v.len();
    let mut k: usize = 0;
    assert(res@ =~= v@.take(0));
    assert(texts(res@) =~= texts(v@.take(0)));
    while k < n
        invariant
            n == v.len(),
            k <= n,
            total_ordering(text_order()),
            res@.to_multiset() == v@.take(k as int).to_multiset(),
            texts(res@).to_multiset() == texts(v@.take(k as int)).to_multiset(),
            sorted_by(texts(res@), text_order()),
        decreases n - k,
    {
        let x = v[k].clone();
        let mut j: usize = 0;
        while j < res.len() && text_le(res[j].as_str(), x.as_str())
            invariant
                j <= res.len(),
                forall|t: int| 0 <= t < j ==> chars_le(#[trigger] res@[t]@, x@),
            decreases res.len() - j,
        {
            j = j + 1;
        }
        let ghost before = res@;
        res.insert(j, x);
        proof {
            broadcast use vstd::seq_lib::group_to_multiset_ensures;
            vstd::seq_lib::to_multiset_insert(before, j as int, x);
            assert(v@.take(k + 1) =~= v@.take(k as int).push(v@[k as int]));
            assert(texts(res@) =~= texts(before).insert(j as int, x@));
            vstd::seq_lib::to_multiset_insert(texts(before), j as int, x@);
            assert(texts(v@.take(k + 1)) =~= texts(v@.take(k as int)).push(x@));
            let tb = texts(before);
            let tr = texts(res@);
            assert forall|p: int, q: int| 0 <= p < q < tr.len() implies #[trigger] text_order()(
                tr[p],
                tr[q],
            ) by {
                if q < j {
                    assert(tr[p] == tb[p] && tr[q] == tb[q]);
                } else if q == j {
                    assert(tr[p] == tb[p]);
                    assert(chars_le(before[p]@, x@));
                } else if p == j {
                    assert(tr[q] == tb[q - 1]);
                    if j < before.len() {
                        assert(!chars_le(before[j as int]@, x@));
                        lemma_le_total(before[j as int]@, x@);
                        if q - 1 > j {
                            assert(text_order()(tb[j as int], tb[q - 1]));
                        } else {
                            lemma_le_reflexive(tb[j as int]);
                        }
                        lemma_le_transitive(x@, tb[j as int], tb[q - 1]);
                    }
                } else if p < j {
                    assert(tr[p] == tb[p] && tr[q] == tb[q - 1]);
                } else {
                    assert(tr[p] == tb[p - 1] && tr[q] == tb[q - 1]);
                }
            }
        }
        k = k + 1;
    }
    proof {
        assert(v@.take(n as int) =~= v@);
        let tv = texts(v@);
        tv.lemma_sort_by_ensures(text_order());
        vstd::seq_lib::lemma_sorted_unique(texts(res@), tv.sort_by(text_order()), text_order());
    }
    res
}

} // verus!
