//! The order of a document's symbols: sorted by name, each name once.
use vstd::prelude::*;

use crate::parser::outline::{
    dedup_by_name, insert_by_name, sort_by_name, symbols_of, traverse, SpecSymbol,
};
use crate::parser::references::text_le;
use crate::syntax::SyntaxNode;

verus! {

/// Symbols ordered by name.
pub open spec fn sorted_by_name(s: Seq<SpecSymbol>) -> bool {
    forall|i: int, j: int| #![trigger s[i], s[j]] 0 <= i < j < s.len() ==> text_le(s[i].name, s[j].name)
}

proof fn lemma_insert_by_name_bounded(sorted: Seq<SpecSymbol>, x: SpecSymbol, b: Seq<char>)
    requires
        forall|k: int| 0 <= k < sorted.len() ==> text_le(sorted[k].name, b),
        text_le(x.name, b),
    ensures
        forall|k: int|
            0 <= k < insert_by_name(sorted, x).len() ==> text_le(insert_by_name(sorted, x)[k].name, b),
        insert_by_name(sorted, x).len() == sorted.len() + 1,
    decreases sorted.len(),
{
    if sorted.len() > 0 && !text_le(sorted.last().name, x.name) {
        lemma_insert_by_name_bounded(sorted.drop_last(), x, b);
    }
}

proof fn lemma_insert_by_name_sorted(sorted: Seq<SpecSymbol>, x: SpecSymbol)
    requires
        sorted_by_name(sorted),
    ensures
        sorted_by_name(insert_by_name(sorted, x)),
    decreases sorted.len(),
{
    if sorted.len() == 0 {
    } else if text_le(sorted.last().name, x.name) {
        let r = sorted.push(x);
        assert forall|i: int, j: int| 0 <= i < j < r.len() implies text_le(r[i].name, r[j].name) by {
            if j == sorted.len() && i < sorted.len() - 1 {
                crate::parser::references::lemma_text_le_trans(
                    sorted[i].name,
                    sorted.last().name,
                    x.name,
                );
            }
        }
    } else {
        let d = sorted.drop_last();
        let last = sorted.last();
        crate::parser::references::lemma_text_le_total(last.name, x.name);
        lemma_insert_by_name_sorted(d, x);
        assert forall|k: int| 0 <= k < d.len() implies text_le(d[k].name, last.name) by {}
        lemma_insert_by_name_bounded(d, x, last.name);
        let r = insert_by_name(d, x);
        assert forall|i: int, j: int| 0 <= i < j < r.push(last).len() implies text_le(
            r.push(last)[i].name,
            r.push(last)[j].name,
        ) by {
            if j == r.len() {
                assert(text_le(r[i].name, last.name));
            } else {
                assert(r.push(last)[i] == r[i]);
                assert(r.push(last)[j] == r[j]);
            }
        }
    }
}

proof fn lemma_sort_by_name_sorted(s: Seq<SpecSymbol>)
    ensures
        sorted_by_name(sort_by_name(s)),
    decreases s.len(),
{
    if s.len() > 0 {
        lemma_sort_by_name_sorted(s.drop_last());
        lemma_insert_by_name_sorted(sort_by_name(s.drop_last()), s.last());
    }
}

/// Every name kept is no later than the last name of `s`, and the last kept
/// name is that one.
proof fn lemma_dedup_bound(s: Seq<SpecSymbol>)
    requires
        sorted_by_name(s),
        s.len() > 0,
    ensures
        dedup_by_name(s).len() > 0,
        dedup_by_name(s).last().name == s.last().name,
        forall|k: int|
            0 <= k < dedup_by_name(s).len() ==> text_le(
                #[trigger] dedup_by_name(s)[k].name,
                s.last().name,
            ),
    decreases s.len(),
{
    let t = s.drop_last();
    let d = dedup_by_name(t);
    let x = s.last();
    crate::parser::references::lemma_text_le_refl(x.name);
    if t.len() > 0 {
        assert(sorted_by_name(t)) by {
            assert forall|i: int, j: int| #![trigger t[i], t[j]] 0 <= i < j < t.len() implies text_le(
                t[i].name,
                t[j].name,
            ) by {
                assert(t[i] == s[i] && t[j] == s[j]);
            }
        }
        lemma_dedup_bound(t);
        assert(text_le(t.last().name, x.name)) by {
            assert(t.last() == s[s.len() - 2]);
        }
        assert forall|k: int| 0 <= k < d.len() implies text_le(#[trigger] d[k].name, x.name) by {
            crate::parser::references::lemma_text_le_trans(d[k].name, t.last().name, x.name);
        }
    }
    if !(d.len() > 0 && d.last().name == x.name) {
        let r = d.push(x);
        assert forall|k: int| 0 <= k < r.len() implies text_le(#[trigger] r[k].name, x.name) by {
            if k < d.len() {
                assert(r[k] == d[k]);
            }
        }
    }
}

proof fn lemma_dedup_by_name(s: Seq<SpecSymbol>)
    requires
        sorted_by_name(s),
    ensures
        sorted_by_name(dedup_by_name(s)),
        forall|i: int, j: int|
            #![trigger dedup_by_name(s)[i], dedup_by_name(s)[j]]
            0 <= i && j == i + 1 && j < dedup_by_name(s).len() ==> dedup_by_name(s)[i].name
                != dedup_by_name(s)[j].name,
    decreases s.len(),
{
    if s.len() > 0 {
        let t = s.drop_last();
        assert(sorted_by_name(t)) by {
            assert forall|i: int, j: int| #![trigger t[i], t[j]] 0 <= i < j < t.len() implies text_le(
                t[i].name,
                t[j].name,
            ) by {
                assert(t[i] == s[i] && t[j] == s[j]);
            }
        }
        lemma_dedup_by_name(t);
        let d = dedup_by_name(t);
        let x = s.last();
        if t.len() > 0 {
            lemma_dedup_bound(t);
        }
        if !(d.len() > 0 && d.last().name == x.name) {
            let r = d.push(x);
            assert(r == dedup_by_name(s));
            if t.len() > 0 {
                assert(text_le(t.last().name, x.name)) by {
                    assert(t.last() == s[s.len() - 2]);
                }
            }
            assert forall|i: int, j: int| #![trigger r[i], r[j]] 0 <= i < j < r.len() implies text_le(
                r[i].name,
                r[j].name,
            ) by {
                assert(r[i] == d[i]);
                if j == d.len() {
                    crate::parser::references::lemma_text_le_trans(d[i].name, t.last().name, x.name);
                } else {
                    assert(r[j] == d[j]);
                }
            }
            assert forall|i: int, j: int| #![trigger r[i], r[j]] 0 <= i && j == i + 1 && j < r.len()
                implies r[i].name != r[j].name by {
                assert(r[i] == d[i]);
                if j < d.len() {
                    assert(r[j] == d[j]);
                }
            }
        }
    }
}

/// The symbols of a document come ordered by name, each name once.
pub proof fn symbols_sorted_with_unique_names(tree: SyntaxNode)
    ensures
        forall|i: int, j: int|
            0 <= i < j < symbols_of(tree).len() ==> text_le(
                symbols_of(tree)[i].name,
                symbols_of(tree)[j].name,
            ) && symbols_of(tree)[i].name != symbols_of(tree)[j].name,
{
    let s = sort_by_name(traverse(tree, seq![]));
    lemma_sort_by_name_sorted(traverse(tree, seq![]));
    lemma_dedup_by_name(s);
    let r = symbols_of(tree);
    assert forall|i: int, j: int| 0 <= i < j < r.len() implies text_le(r[i].name, r[j].name)
        && r[i].name != r[j].name by {
        if r[i].name == r[j].name {
            assert(r[i].name != r[i + 1].name);
            assert(text_le(r[i].name, r[i + 1].name));
            if i + 1 < j {
                assert(text_le(r[i + 1].name, r[j].name));
            } else {
                crate::parser::references::lemma_text_le_refl(r[j].name);
            }
            crate::parser::references::lemma_text_le_antisym(r[i].name, r[i + 1].name);
            assert(r[i].name != r[i + 1].name);
        }
    }
}

} // verus!
