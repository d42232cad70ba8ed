//! Ordering streams by their labels, as strings compare.

use vstd::prelude::*;

use crate::text::chars_of;

verus! {

/// `a` comes strictly before `b` in lexicographic order of code points
/// (which is how Rust orders `String`s).
pub open spec fn text_lt(a: Seq<char>, b: Seq<char>) -> bool
    decreases a.len(),
{
    if b.len() == 0 {
        false
    } else if a.len() == 0 {
        true
    } else if a[0] != b[0] {
        (a[0] as u32) < (b[0] as u32)
    } else {
        text_lt(a.drop_first(), b.drop_first())
    }
}

proof fn lemma_text_lt_transitive(a: Seq<char>, b: Seq<char>, c: Seq<char>)
    requires
        text_lt(a, b),
        text_lt(b, c),
    ensures
        text_lt(a, c),
    decreases a.len(),
{
    if a.len() > 0 && b.len() > 0 && c.len() > 0 && a[0] == b[0] && b[0] == c[0] {
        lemma_text_lt_transitive(a.drop_first(), b.drop_first(), c.drop_first());
    }
}

proof fn lemma_text_lt_total(a: Seq<char>, b: Seq<char>)
    ensures
        a == b || text_lt(a, b) || text_lt(b, a),
    decreases a.len(),
{
    if a.len() > 0 && b.len() > 0 {
        if a[0] == b[0] {
            lemma_text_lt_total(a.drop_first(), b.drop_first());
            if a.drop_first() == b.drop_first() {
                assert(a =~= seq![a[0]] + a.drop_first());
                assert(b =~= seq![b[0]] + b.drop_first());
            }
        } else {
            vstd::utf8::char_u32_cast(a[0], a[0] as u32);
            vstd::utf8::char_u32_cast(b[0], b[0] as u32);
            assert((a[0] as u32) != (b[0] as u32));
        }
    } else if a.len() == 0 && b.len() == 0 {
        assert(a =~= b);
    }
}

/// Index `x` goes before index `y`: its label is smaller, or the labels are
/// equal and `x` is the smaller index.
pub open spec fn goes_before(labels: Seq<Seq<char>>, x: int, y: int) -> bool {
    text_lt(labels[x], labels[y]) || (labels[x] == labels[y] && x < y)
}

/// `order` lists each index of `labels` exactly once, labels in increasing
/// order, equal labels in index order.
pub open spec fn is_label_order(labels: Seq<Seq<char>>, order: Seq<usize>) -> bool {
    &&& order.len() == labels.len()
    &&& forall|i: int| 0 <= i < order.len() ==> #[trigger] order[i] < labels.len()
    &&& forall|k: int| 0 <= k < labels.len() ==> #[trigger] order.contains(k as usize)
    &&& forall|i: int, j: int|
        0 <= i < j < order.len() ==> goes_before(labels, #[trigger] order[i] as int, #[trigger] order[j] as int)
}

fn chars_lt(a: &Vec<char>, b: &Vec<char>) -> (r: bool)
    ensures
        r == text_lt(a@, b@),
{
    let mut i: usize = 0;
    assert(a@.skip(0) =~= a@);
    assert(b@.skip(0) =~= b@);
    while i < a.len() && i < b.len()
        invariant
            i <= a.len(),
            i <= b.len(),
            text_lt(a@, b@) == text_lt(a@.skip(i as int), b@.skip(i as int)),
        decreases a.len() - i,
    {
        assert(a@.skip(i as int)[0] == a@[i as int]);
        assert(b@.skip(i as int)[0] == b@[i as int]);
        if a[i] != b[i] {
            return (a[i] as u32) < (b[i] as u32);
        }
        assert(a@.skip(i as int).drop_first() =~= a@.skip(i + 1));
        assert(b@.skip(i as int).drop_first() =~= b@.skip(i + 1));
        i += 1;
    }
    i < b.len()
}

/// The order in which to show items with `labels`: by label, ties in index
/// order (a stable sort).
pub fn order_by_label(labels: &[String]) -> (order: Vec<usize>)
    ensures
        is_label_order(labels@.map_values(|s: String| s@), order@),
{
    let ghost ls = labels@.map_values(|s: String| s@);
    let mut texts: Vec<Vec<char>> = Vec::new();
    let mut t: usize = 0;
    while t < labels.len()
        invariant
            t <= labels.len(),
            ls == labels@.map_values(|s: String| s@),
            texts@.len() == t,
            forall|k: int| 0 <= k < t ==> #[trigger] texts@[k]@ == ls[k],
        decreases labels.len() - t,
    {
        texts.push(chars_of(labels[t].as_str()));
        t += 1;
    }
    let mut order: Vec<usize> = Vec::new();
    let mut i: usize = 0;
    while i < labels.len()
        invariant
            i <= labels.len(),
            ls == labels@.map_values(|s: String| s@),
            ls.len() == labels.len(),
            texts@.len() == labels.len(),
            forall|k: int| 0 <= k < labels.len() ==> #[trigger] texts@[k]@ == ls[k],
            order@.len() == i,
            forall|a: int| 0 <= a < order@.len() ==> #[trigger] order@[a] < i,
            forall|k: int| 0 <= k < i ==> #[trigger] order@.contains(k as usize),
            forall|a: int, b: int|
                0 <= a < b < order@.len() ==> goes_before(ls, #[trigger] order@[a] as int, #[trigger] order@[b] as int),
        decreases labels.len() - i,
    {
        let mut p = order.len();
        while p > 0 && chars_lt(&texts[i], &texts[order[p - 1]])
            invariant
                p <= order@.len(),
                order@.len() == i,
                i < labels.len(),
                texts@.len() == labels.len(),
                forall|k: int| 0 <= k < labels.len() ==> #[trigger] texts@[k]@ == ls[k],
                forall|a: int| 0 <= a < order@.len() ==> #[trigger] order@[a] < i,
                forall|a: int| p <= a < order@.len() ==> text_lt(ls[i as int], ls[#[trigger] order@[a] as int]),
            decreases p,
        {
            p -= 1;
        }
        let ghost old_order = order@;
        proof {
            if p > 0 {
                let q = order@[p - 1] as int;
                assert(!text_lt(ls[i as int], ls[q]));
                lemma_text_lt_total(ls[i as int], ls[q]);
                assert(goes_before(ls, q, i as int));
                assert forall|a: int| 0 <= a < p implies goes_before(ls, #[trigger] old_order[a] as int, i as int) by {
                    if a < p - 1 {
                        let x = old_order[a] as int;
                        assert(goes_before(ls, x, q));
                        if text_lt(ls[x], ls[q]) && text_lt(ls[q], ls[i as int]) {
                            lemma_text_lt_transitive(ls[x], ls[q], ls[i as int]);
                        }
                    }
                }
            }
        }
        order.insert(p, i);
        proof {
            let n = order@;
            assert forall|a: int| 0 <= a < n.len() implies #[trigger] n[a] < i + 1 by {
                if a < p {
                    assert(n[a] == old_order[a]);
                } else if a > p {
                    assert(n[a] == old_order[a - 1]);
                }
            }
            assert forall|k: int| 0 <= k < i + 1 implies #[trigger] n.contains(k as usize) by {
                if k == i {
                    assert(n[p as int] == i);
                } else {
                    assert(old_order.contains(k as usize));
                    let a = choose|a: int| 0 <= a < old_order.len() && old_order[a] == k as usize;
                    if a < p {
                        assert(n[a] == old_order[a]);
                    } else {
                        assert(n[a + 1] == old_order[a]);
                    }
                }
            }
            assert forall|a: int, b: int| 0 <= a < b < n.len() implies goes_before(
                ls,
                #[trigger] n[a] as int,
                #[trigger] n[b] as int,
            ) by {
                if b < p {
                    assert(n[a] == old_order[a] && n[b] == old_order[b]);
                } else if b == p {
                    assert(n[a] == old_order[a]);
                } else if a == p {
                    assert(n[b] == old_order[b - 1]);
                } else if a < p {
                    assert(n[a] == old_order[a] && n[b] == old_order[b - 1]);
                } else {
                    assert(n[a] == old_order[a - 1] && n[b] == old_order[b - 1]);
                }
            }
        }
        i += 1;
    }
    order
}

} // verus!
