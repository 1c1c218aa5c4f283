//! The order of texts: character by character, by code point, a text before
//! every text that it begins. It is the order in which strings compare.

use vstd::prelude::*;
use vstd::relations::{sorted_by, total_ordering};
use vstd::seq_lib::{lemma_sorted_unique, to_multiset_build, to_multiset_insert};
use crate::chars::{chars_of, code};

verus! {

/// `a` is `b` or comes before it.
pub open spec fn text_le(a: Seq<char>, b: Seq<char>) -> bool
    decreases a.len(),
{
    if a.len() == 0 {
        true
    } else if b.len() == 0 {
        false
    } else if a[0] == b[0] {
        text_le(a.drop_first(), b.drop_first())
    } else {
        (a[0] as int) < (b[0] as int)
    }
}

/// `text_le` as a relation.
pub open spec fn text_order() -> spec_fn(Seq<char>, Seq<char>) -> bool {
    |a: Seq<char>, b: Seq<char>| text_le(a, b)
}

/// Every text is itself or before itself.
pub proof fn lemma_text_le_reflexive(a: Seq<char>)
    ensures
        text_le(a, a),
    decreases a.len(),
{
    if a.len() > 0 {
        lemma_text_le_reflexive(a.drop_first());
    }
}

/// Two texts, each the other or before it, are one text.
pub proof fn lemma_text_le_antisymmetric(a: Seq<char>, b: Seq<char>)
    requires
        text_le(a, b),
        text_le(b, a),
    ensures
        a == b,
    decreases a.len(),
{
    if a.len() == 0 || b.len() == 0 {
        assert(a =~= b);
    } else {
        lemma_text_le_antisymmetric(a.drop_first(), b.drop_first());
        assert(a =~= seq![a[0]] + a.drop_first());
        assert(b =~= seq![b[0]] + b.drop_first());
    }
}

/// What is before a text is before what that text is before.
pub proof fn lemma_text_le_transitive(a: Seq<char>, b: Seq<char>, c: Seq<char>)
    requires
        text_le(a, b),
        text_le(b, c),
    ensures
        text_le(a, c),
    decreases a.len(),
{
    if a.len() > 0 && a[0] == b[0] && b[0] == c[0] {
        lemma_text_le_transitive(a.drop_first(), b.drop_first(), c.drop_first());
    }
}

/// Of two texts one is the other or before it.
pub proof fn lemma_text_le_connected(a: Seq<char>, b: Seq<char>)
    ensures
        text_le(a, b) || text_le(b, a),
    decreases a.len(),
{
    if a.len() > 0 && b.len() > 0 {
        if a[0] == b[0] {
            lemma_text_le_connected(a.drop_first(), b.drop_first());
        } else {
            assert(a[0] as int != b[0] as int);
        }
    }
}

/// The order of texts is total: any two texts compare, and two that compare
/// both ways are one text.
pub proof fn lemma_text_order_total()
    ensures
        total_ordering(text_order()),
{
    let r = text_order();
    assert forall|a: Seq<char>| #[trigger] r(a, a) by {
        lemma_text_le_reflexive(a);
    }
    assert forall|a: Seq<char>, b: Seq<char>| #[trigger] r(a, b) && #[trigger] r(b, a) implies a
        == b by {
        lemma_text_le_antisymmetric(a, b);
    }
    assert forall|a: Seq<char>, b: Seq<char>, c: Seq<char>| #[trigger]
        r(a, b) && #[trigger] r(b, c) implies r(a, c) by {
        lemma_text_le_transitive(a, b, c);
    }
    assert forall|a: Seq<char>, b: Seq<char>| #[trigger] r(a, b) || #[trigger] r(b, a) by {
        lemma_text_le_connected(a, b);
    }
}

/// Whether `a` is `b` or comes before it.
pub fn chars_le(a: &Vec<char>, b: &Vec<char>) -> (r: bool)
    ensures
        r == text_le(a@, b@),
{
    let mut i: usize = 0;
    assert(a@.skip(0) =~= a@ && b@.skip(0) =~= b@);
    while i < a.len() && i < b.len()
        invariant
            i <= a.len(),
            i <= b.len(),
            text_le(a@, b@) == text_le(a@.skip(i as int), b@.skip(i as int)),
        decreases a.len() - i,
    {
        proof {
            assert(a@.skip(i as int).drop_first() =~= a@.skip(i + 1));
            assert(b@.skip(i as int).drop_first() =~= b@.skip(i + 1));
        }
        let x: char = a[i];
        let y: char = b[i];
        if x != y {
            return code(x) < code(y);
        }
        i += 1;
    }
    i == a.len()
}

/// Whether `a` is `b` or comes before it.
pub fn str_le(a: &str, b: &str) -> (r: bool)
    ensures
        r == text_le(a@, b@),
{
    chars_le(&chars_of(a), &chars_of(b))
}

/// The views of a run of strings.
pub open spec fn texts_view(v: Seq<String>) -> Seq<Seq<char>> {
    v.map_values(|s: String| s@)
}

/// `s` without the members that repeat the member before them.
pub open spec fn without_repeats<A>(s: Seq<A>) -> Seq<A>
    decreases s.len(),
{
    if s.len() <= 1 {
        s
    } else if s.last() == s[s.len() - 2] {
        without_repeats(s.drop_last())
    } else {
        without_repeats(s.drop_last()).push(s.last())
    }
}

/// Where in the sorted run `sorted` the text `x` belongs: after all that are
/// not after it.
fn insertion_point(sorted: &Vec<String>, x: &str) -> (p: usize)
    requires
        sorted_by(texts_view(sorted@), text_order()),
    ensures
        p <= sorted.len(),
        forall|i: int| 0 <= i < p ==> text_le(#[trigger] texts_view(sorted@)[i], x@),
        forall|j: int| p <= j < sorted.len() ==> text_le(x@, #[trigger] texts_view(sorted@)[j]),
{
    let ghost v = texts_view(sorted@);
    let mut lo: usize = 0;
    let mut hi: usize = sorted.len();
    while lo < hi
        invariant
            lo <= hi <= sorted.len(),
            v == texts_view(sorted@),
            sorted_by(v, text_order()),
            forall|i: int| 0 <= i < lo ==> text_le(#[trigger] v[i], x@),
            forall|j: int| hi <= j < sorted.len() ==> text_le(x@, #[trigger] v[j]),
        decreases hi - lo,
    {
        let mid = lo + (hi - lo) / 2;
        if str_le(sorted[mid].as_str(), x) {
            assert forall|i: int| 0 <= i < mid + 1 implies text_le(#[trigger] v[i], x@) by {
                if i < mid {
                    assert(text_order()(v[i], v[mid as int]));
                    lemma_text_le_transitive(v[i], v[mid as int], x@);
                }
            }
            lo = mid + 1;
        } else {
            assert forall|j: int| mid <= j < sorted.len() implies text_le(x@, #[trigger] v[j]) by {
                lemma_text_le_connected(v[mid as int], x@);
                if mid < j {
                    assert(text_order()(v[mid as int], v[j]));
                    lemma_text_le_transitive(x@, v[mid as int], v[j]);
                }
            }
            hi = mid;
        }
    }
    lo
}

/// The strings `items` in the order of texts.
pub fn sort_texts(items: &Vec<String>) -> (out: Vec<String>)
    ensures
        texts_view(out@) == texts_view(items@).sort_by(text_order()),
{
    let ghost all = texts_view(items@);
    let mut out: Vec<String> = Vec::new();
    let mut i: usize = 0;
    assert(texts_view(out@) =~= all.take(0));
    while i < items.len()
        invariant
            i <= items.len(),
            all == texts_view(items@),
            sorted_by(texts_view(out@), text_order()),
            texts_view(out@).to_multiset() == all.take(i as int).to_multiset(),
        decreases items.len() - i,
    {
        let ghost before = texts_view(out@);
        let x = items[i].clone();
        let p = insertion_point(&out, x.as_str());
        out.insert(p, x);
        proof {
            let after = texts_view(out@);
            assert(after =~= before.insert(p as int, x@));
            to_multiset_insert(before, p as int, x@);
            assert(all.take(i + 1) =~= all.take(i as int).push(x@));
            to_multiset_build(all.take(i as int), x@);
            assert forall|a: int, b: int| 0 <= a < b < after.len() implies text_order()(
                #[trigger] after[a],
                #[trigger] after[b],
            ) by {
                if b < p {
                    assert(text_order()(before[a], before[b]));
                } else if b == p {
                    assert(text_le(before[a], x@));
                } else if a == p {
                    assert(text_le(x@, before[b - 1]));
                } else if a < p {
                    assert(text_order()(before[a], before[b - 1]));
                } else {
                    assert(text_order()(before[a - 1], before[b - 1]));
                }
            }
        }
        i += 1;
    }
    proof {
        assert(all.take(i as int) =~= all);
        lemma_text_order_total();
        all.lemma_sort_by_ensures(text_order());
        lemma_sorted_unique(texts_view(out@), all.sort_by(text_order()), text_order());
    }
    out
}

/// The strings `items` without those that repeat the one before them.
pub fn dedup_texts(items: &Vec<String>) -> (out: Vec<String>)
    ensures
        texts_view(out@) == without_repeats(texts_view(items@)),
{
    let ghost all = texts_view(items@);
    let mut out: Vec<String> = Vec::new();
    let mut i: usize = 0;
    assert(texts_view(out@) =~= without_repeats(all.take(0)));
    while i < items.len()
        invariant
            i <= items.len(),
            all == texts_view(items@),
            texts_view(out@) == without_repeats(all.take(i as int)),
        decreases items.len() - i,
    {
        let ghost before = texts_view(out@);
        proof {
            assert(all.take(i + 1).drop_last() =~= all.take(i as int));
            assert(all.take(i + 1).last() == all[i as int]);
            if i > 0 {
                assert(all.take(i + 1)[i - 1] == all[i - 1]);
            }
        }
        if i == 0 || items[i] != items[i - 1] {
            out.push(items[i].clone());
            assert(texts_view(out@) =~= before.push(all[i as int]));
        }
        i += 1;
    }
    assert(all.take(i as int) =~= all);
    out
}

} // verus!
