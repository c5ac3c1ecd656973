//! The storage contract's laws, proved once over the table model that every
//! backend's operations are specified against: a sequence of
//! `(identifier, entry)` rows in insertion order plus a monotonic allocator.

use crate::interface::{
    contains_id, find_row, insert_sorted, lemma_find_row_contains, lemma_insert_sorted_subset,
    lemma_sort_rows_subset, lemma_value_cmp_antisym, lemma_value_cmp_lt_trans,
    lemma_value_cmp_zero_subst, query_spec, remove_rows, row_index_of, rows_wf, same_variant,
    sort_key_le, sort_rows, update_rows, Entry, Error, FieldName, QueryType, SortDirection, Value,
};
use vstd::multiset::Multiset;
use vstd::prelude::*;
use vstd::seq_lib::lemma_multiset_commutative;

verus! {

broadcast use vstd::seq_lib::group_to_multiset_ensures;

/// Well-formedness survives dropping the first row.
proof fn lemma_wf_drop_first<E: Entry>(rows: Seq<(int, E)>, next: int)
    requires
        rows_wf(rows, next),
        rows.len() > 0,
    ensures
        rows_wf(rows.drop_first(), next),
{
    let d = rows.drop_first();
    assert forall|i: int, j: int| 0 <= i < j < d.len() implies (#[trigger] d[i]).0 < (
    #[trigger] d[j]).0 by {
        assert(rows[i + 1].0 < rows[j + 1].0);
    }
    assert forall|i: int| 0 <= i < d.len() implies 0 <= (#[trigger] d[i]).0 < next by {
        assert(0 <= rows[i + 1].0 < next);
    }
}

/// Law: the key an insertion returns resolves to the inserted entry. An
/// insertion appends the entry under the allocator's identifier, which no
/// stored row carries yet, so looking that identifier up finds exactly the
/// new row.
pub proof fn lemma_insert_lookup<E: Entry>(rows: Seq<(int, E)>, next: int, e: E)
    requires
        rows_wf(rows, next),
    ensures
        find_row(rows.push((next, e)), next) == Some(e),
    decreases rows.len(),
{
    let pushed = rows.push((next, e));
    if rows.len() == 0 {
        assert(pushed[0] == (next, e));
    } else {
        assert(pushed[0] == rows[0]);
        assert(0 <= rows[0].0 < next);
        assert(pushed.drop_first() =~= rows.drop_first().push((next, e)));
        lemma_wf_drop_first(rows, next);
        lemma_insert_lookup(rows.drop_first(), next, e);
    }
}

/// Law: an update is visible. After the record under a key is replaced,
/// the key resolves to the replacement.
pub proof fn lemma_update_lookup<E: Entry>(rows: Seq<(int, E)>, id: int, e: E)
    requires
        contains_id(rows, id),
    ensures
        find_row(update_rows(rows, id, e), id) == Some(e),
    decreases rows.len(),
{
    let updated = update_rows(rows, id, e);
    if rows[0].0 == id {
        assert(updated[0] == (rows[0].0, e));
    } else {
        assert(updated[0] == rows[0]);
        assert(updated.drop_first() =~= update_rows(rows.drop_first(), id, e));
        let i = choose|i: int| 0 <= i < rows.len() && (#[trigger] rows[i]).0 == id;
        assert(rows.drop_first()[i - 1].0 == id);
        lemma_update_lookup(rows.drop_first(), id, e);
    }
}

/// Removing an identifier leaves no row carrying it and keeps the rows
/// well-formed for the same allocator.
proof fn lemma_remove_effect<E: Entry>(rows: Seq<(int, E)>, next: int, k: int)
    requires
        rows_wf(rows, next),
        contains_id(rows, k),
    ensures
        !contains_id(remove_rows(rows, k), k),
        rows_wf(remove_rows(rows, k), next),
{
    let j = row_index_of(rows, k);
    assert(0 <= j < rows.len() && rows[j].0 == k);
    let rows2 = rows.remove(j);
    assert(remove_rows(rows, k) == rows2);
    assert forall|i: int| 0 <= i < rows2.len() implies (#[trigger] rows2[i]).0 != k by {
        let oi = if i < j {
            i
        } else {
            i + 1
        };
        assert(rows2[i] == rows[oi]);
        if oi < j {
            assert(rows[oi].0 < rows[j].0);
        } else {
            assert(rows[j].0 < rows[oi].0);
        }
    }
    assert forall|a: int, b: int| 0 <= a < b < rows2.len() implies (#[trigger] rows2[a]).0 < (
    #[trigger] rows2[b]).0 by {
        let oa = if a < j {
            a
        } else {
            a + 1
        };
        let ob = if b < j {
            b
        } else {
            b + 1
        };
        assert(rows[oa].0 < rows[ob].0);
    }
    assert forall|a: int| 0 <= a < rows2.len() implies 0 <= (#[trigger] rows2[a]).0 < next by {
        let oa = if a < j {
            a
        } else {
            a + 1
        };
        assert(0 <= rows[oa].0 < next);
    }
}

/// Law: keys are unique and never reused. Inserting `e1` issues the
/// allocator's identifier; inserting `e2` right after issues the next one,
/// a different key. And after removing `e1`'s key, the rows stay
/// well-formed for the advanced allocator — every identifier a later
/// insertion can issue lies above every identifier ever issued, so `e1`'s
/// key cannot come back.
pub proof fn lemma_key_uniqueness<E: Entry>(rows: Seq<(int, E)>, next: int, e1: E, e2: E)
    requires
        rows_wf(rows, next),
        0 <= next,
    ensures
        ({
            let k1 = next;
            let rows1 = rows.push((k1, e1));
            let rows2 = remove_rows(rows1, k1);
            &&& k1 != next + 1
            &&& rows_wf(rows1, next + 1)
            &&& rows_wf(rows2, next + 1)
            &&& !contains_id(rows2, k1)
            &&& !contains_id(rows2.push((next + 1, e2)), k1)
        }),
{
    let k1 = next;
    let rows1 = rows.push((k1, e1));
    assert(rows_wf(rows1, next + 1)) by {
        assert forall|i: int, j: int| 0 <= i < j < rows1.len() implies (#[trigger] rows1[i]).0
            < (#[trigger] rows1[j]).0 by {
            if j < rows.len() {
                assert(rows[i].0 < rows[j].0);
            } else {
                assert(0 <= rows[i].0 < next);
            }
        }
        assert forall|i: int| 0 <= i < rows1.len() implies 0 <= (#[trigger] rows1[i]).0 < next
            + 1 by {
            if i < rows.len() {
                assert(0 <= rows[i].0 < next);
            }
        }
    }
    assert(contains_id(rows1, k1)) by {
        assert(rows.push((k1, e1))[rows.len() as int] == (k1, e1));
        assert(rows1[rows.len() as int].0 == k1);
    }
    lemma_remove_effect(rows1, next + 1, k1);
    let rows2 = remove_rows(rows1, k1);
    let rows3 = rows2.push((next + 1, e2));
    assert forall|i: int| 0 <= i < rows3.len() implies (#[trigger] rows3[i]).0 != k1 by {
        if i < rows2.len() {
            assert(rows3[i] == rows2[i]);
        } else {
            assert(rows3[i] == (next + 1, e2));
        }
    }
}

/// Law: after a removal the key stops resolving. Looking it up yields
/// nothing, the table no longer contains it, and — by the remove
/// contract, which fails exactly on identifiers no row carries — a second
/// removal of the same key reports `KeyNotFound`.
pub proof fn lemma_removal_visibility<E: Entry>(rows: Seq<(int, E)>, next: int, k: int)
    requires
        rows_wf(rows, next),
        contains_id(rows, k),
    ensures
        ({
            let rows2 = remove_rows(rows, k);
            &&& find_row(rows2, k) is None
            &&& !contains_id(rows2, k)
        }),
{
    lemma_remove_effect(rows, next, k);
    lemma_find_row_contains(remove_rows(rows, k), k);
}

/// The value a row shows at the sort field.
pub open spec fn sort_val<E: Entry>(r: (int, E), sf: <E as Entry>::FieldNames) -> Value {
    r.1.fields_spec()[sf.idx() as int]
}

/// Whether every row of `s` carries the same value variant at the sort
/// field — what a schema-typed column guarantees.
pub open spec fn column_homogeneous<E: Entry>(
    s: Seq<(int, E)>,
    sf: <E as Entry>::FieldNames,
) -> bool {
    forall|i: int, j: int|
        0 <= i < s.len() && 0 <= j < s.len() ==> same_variant(
            sort_val(#[trigger] s[i], sf),
            sort_val(#[trigger] s[j], sf),
        )
}

/// Whether a sequence is ordered by the sort key.
pub open spec fn sorted_rows<E: Entry>(
    s: Seq<(int, E)>,
    sf: <E as Entry>::FieldNames,
    dir: SortDirection,
) -> bool {
    forall|i: int, j: int|
        0 <= i < j < s.len() ==> sort_key_le(sf, dir, #[trigger] s[i], #[trigger] s[j])
}

/// Any two rows are comparable by the sort key.
proof fn lemma_sort_key_le_total<E: Entry>(
    sf: <E as Entry>::FieldNames,
    dir: SortDirection,
    a: (int, E),
    b: (int, E),
)
    ensures
        sort_key_le(sf, dir, a, b) || sort_key_le(sf, dir, b, a),
{
    lemma_value_cmp_antisym(sort_val(a, sf), sort_val(b, sf));
}

/// The sort key order is transitive over a homogeneous column.
proof fn lemma_sort_key_le_trans<E: Entry>(
    sf: <E as Entry>::FieldNames,
    dir: SortDirection,
    a: (int, E),
    b: (int, E),
    c: (int, E),
)
    requires
        same_variant(sort_val(a, sf), sort_val(b, sf)),
        same_variant(sort_val(b, sf), sort_val(c, sf)),
        sort_key_le(sf, dir, a, b),
        sort_key_le(sf, dir, b, c),
    ensures
        sort_key_le(sf, dir, a, c),
{
    let va = sort_val(a, sf);
    let vb = sort_val(b, sf);
    let vc = sort_val(c, sf);
    lemma_value_cmp_antisym(va, vb);
    lemma_value_cmp_antisym(vb, vc);
    lemma_value_cmp_antisym(va, vc);
    match dir {
        SortDirection::Asc => {
            if crate::interface::value_cmp(va, vb) == 0 {
                lemma_value_cmp_zero_subst(vc, va, vb);
            } else if crate::interface::value_cmp(vb, vc) == 0 {
                lemma_value_cmp_zero_subst(va, vb, vc);
            } else {
                lemma_value_cmp_lt_trans(va, vb, vc);
            }
        },
        SortDirection::Desc => {
            if crate::interface::value_cmp(vb, va) == 0 {
                lemma_value_cmp_zero_subst(vc, vb, va);
            } else if crate::interface::value_cmp(vc, vb) == 0 {
                lemma_value_cmp_zero_subst(va, vc, vb);
            } else {
                lemma_value_cmp_lt_trans(vc, vb, va);
            }
        },
    }
}

/// Homogeneity carries over to any selection of rows out of the column.
proof fn lemma_homogeneous_subset<E: Entry>(
    s: Seq<(int, E)>,
    t: Seq<(int, E)>,
    sf: <E as Entry>::FieldNames,
)
    requires
        column_homogeneous(s, sf),
        forall|i: int| 0 <= i < t.len() ==> s.contains(#[trigger] t[i]),
    ensures
        column_homogeneous(t, sf),
{
    assert forall|i: int, j: int|
        0 <= i < t.len() && 0 <= j < t.len() implies same_variant(
        sort_val(#[trigger] t[i], sf),
        sort_val(#[trigger] t[j], sf),
    ) by {
        let a = choose|a: int| 0 <= a < s.len() && s[a] == t[i];
        let b = choose|b: int| 0 <= b < s.len() && s[b] == t[j];
        assert(same_variant(sort_val(s[a], sf), sort_val(s[b], sf)));
    }
}

/// Placing a row into a sorted sequence keeps it sorted, as long as the
/// column stays homogeneous.
proof fn lemma_insert_sorted_preserves<E: Entry>(
    sf: <E as Entry>::FieldNames,
    dir: SortDirection,
    x: (int, E),
    s: Seq<(int, E)>,
)
    requires
        sorted_rows(s, sf, dir),
        column_homogeneous(s, sf),
        forall|i: int| 0 <= i < s.len() ==> same_variant(sort_val(x, sf), sort_val(#[trigger] s[i], sf)),
    ensures
        sorted_rows(insert_sorted(sf, dir, x, s), sf, dir),
    decreases s.len(),
{
    let out = insert_sorted(sf, dir, x, s);
    if s.len() == 0 {
    } else if sort_key_le(sf, dir, s[0], x) {
        let rest = s.drop_first();
        assert(sorted_rows(rest, sf, dir)) by {
            assert forall|i: int, j: int| 0 <= i < j < rest.len() implies sort_key_le(
                sf,
                dir,
                #[trigger] rest[i],
                #[trigger] rest[j],
            ) by {
                assert(rest[i] == s[i + 1] && rest[j] == s[j + 1]);
            }
        }
        assert(column_homogeneous(rest, sf) && forall|i: int|
            0 <= i < rest.len() ==> same_variant(
                sort_val(x, sf),
                sort_val(#[trigger] rest[i], sf),
            )) by {
            assert(forall|i: int| 0 <= i < rest.len() ==> rest[i] == s[i + 1]);
        }
        lemma_insert_sorted_preserves(sf, dir, x, rest);
        lemma_insert_sorted_subset(sf, dir, x, rest);
        let inner = insert_sorted(sf, dir, x, rest);
        assert forall|i: int, j: int| 0 <= i < j < out.len() implies sort_key_le(
            sf,
            dir,
            #[trigger] out[i],
            #[trigger] out[j],
        ) by {
            if i == 0 {
                assert(out[0] == s[0]);
                assert(out[j] == inner[j - 1]);
                if inner[j - 1] == x {
                } else {
                    assert(rest.contains(inner[j - 1]));
                    let m = choose|m: int| 0 <= m < rest.len() && rest[m] == inner[j - 1];
                    assert(rest[m] == s[m + 1]);
                    assert(sort_key_le(sf, dir, s[0], s[m + 1]));
                }
            } else {
                assert(out[i] == inner[i - 1] && out[j] == inner[j - 1]);
            }
        }
    } else {
        lemma_sort_key_le_total(sf, dir, s[0], x);
        assert(sort_key_le(sf, dir, x, s[0]));
        assert forall|i: int, j: int| 0 <= i < j < out.len() implies sort_key_le(
            sf,
            dir,
            #[trigger] out[i],
            #[trigger] out[j],
        ) by {
            if i == 0 {
                assert(out[j] == s[j - 1]);
                if j > 1 {
                    assert(sort_key_le(sf, dir, s[0], s[j - 1]));
                    lemma_sort_key_le_trans(sf, dir, x, s[0], s[j - 1]);
                }
            } else {
                assert(out[i] == s[i - 1] && out[j] == s[j - 1]);
            }
        }
    }
}

/// Law: the pipeline's sort really sorts. Over a schema-homogeneous
/// column — the only kind a schema-typed table produces — the sorted
/// rows are ordered by the sort field in the requested direction, ties
/// broken by ascending identifier.
pub proof fn lemma_sort_rows_sorted<E: Entry>(
    sf: <E as Entry>::FieldNames,
    dir: SortDirection,
    s: Seq<(int, E)>,
)
    requires
        column_homogeneous(s, sf),
    ensures
        sorted_rows(sort_rows(sf, dir, s), sf, dir),
    decreases s.len(),
{
    if s.len() > 0 {
        let rest = s.drop_first();
        assert(column_homogeneous(rest, sf)) by {
            assert(forall|i: int| 0 <= i < rest.len() ==> rest[i] == s[i + 1]);
        }
        lemma_sort_rows_sorted(sf, dir, rest);
        lemma_sort_rows_subset(sf, dir, rest);
        let sorted_rest = sort_rows(sf, dir, rest);
        lemma_homogeneous_subset(rest, sorted_rest, sf);
        assert forall|i: int| 0 <= i < sorted_rest.len() implies same_variant(
            sort_val(s[0], sf),
            sort_val(#[trigger] sorted_rest[i], sf),
        ) by {
            assert(rest.contains(sorted_rest[i]));
            let m = choose|m: int| 0 <= m < rest.len() && rest[m] == sorted_rest[i];
            assert(rest[m] == s[m + 1]);
            assert(same_variant(sort_val(s[0], sf), sort_val(s[m + 1], sf)));
        }
        lemma_insert_sorted_preserves(sf, dir, s[0], sorted_rest);
    }
}

/// Placing a row into a sequence adds exactly that row to its multiset.
proof fn lemma_insert_sorted_multiset<E: Entry>(
    sf: <E as Entry>::FieldNames,
    dir: SortDirection,
    x: (int, E),
    s: Seq<(int, E)>,
)
    ensures
        insert_sorted(sf, dir, x, s).to_multiset() == s.to_multiset().insert(x),
    decreases s.len(),
{
    let out = insert_sorted(sf, dir, x, s);
    if s.len() == 0 {
        assert(out =~= Seq::<(int, E)>::empty().push(x));
        assert(s.to_multiset() =~= Multiset::<(int, E)>::empty());
    } else if sort_key_le(sf, dir, s[0], x) {
        let rest = s.drop_first();
        lemma_insert_sorted_multiset(sf, dir, x, rest);
        lemma_multiset_commutative(seq![s[0]], insert_sorted(sf, dir, x, rest));
        lemma_multiset_commutative(seq![s[0]], rest);
        assert(s =~= seq![s[0]] + rest);
        assert(seq![s[0]].to_multiset() =~= Multiset::<(int, E)>::empty().insert(s[0])) by {
            assert(seq![s[0]] =~= Seq::<(int, E)>::empty().push(s[0]));
        }
        assert(out.to_multiset() =~= s.to_multiset().insert(x));
    } else {
        lemma_multiset_commutative(seq![x], s);
        assert(seq![x].to_multiset() =~= Multiset::<(int, E)>::empty().insert(x)) by {
            assert(seq![x] =~= Seq::<(int, E)>::empty().push(x));
        }
        assert(out.to_multiset() =~= s.to_multiset().insert(x));
    }
}

/// Law: the pipeline's sort permutes. Sorting rearranges the filtered
/// rows and nothing else: the sorted rows form the same multiset.
pub proof fn lemma_sort_rows_permutes<E: Entry>(
    sf: <E as Entry>::FieldNames,
    dir: SortDirection,
    s: Seq<(int, E)>,
)
    ensures
        sort_rows(sf, dir, s).to_multiset() == s.to_multiset(),
    decreases s.len(),
{
    if s.len() == 0 {
    } else {
        let rest = s.drop_first();
        lemma_sort_rows_permutes(sf, dir, rest);
        lemma_insert_sorted_multiset(sf, dir, s[0], sort_rows(sf, dir, rest));
        lemma_multiset_commutative(seq![s[0]], rest);
        assert(s =~= seq![s[0]] + rest);
        assert(seq![s[0]].to_multiset() =~= Multiset::<(int, E)>::empty().insert(s[0])) by {
            assert(seq![s[0]] =~= Seq::<(int, E)>::empty().push(s[0]));
        }
        assert(sort_rows(sf, dir, s).to_multiset() =~= s.to_multiset());
    }
}

/// Law: a multi-field search whose field and value lists disagree in
/// length is rejected as `InvalidQuery` on every table state — never
/// partial results, never a panic.
pub proof fn lemma_multi_search_mismatch_rejected<E: Entry>(
    rows: Seq<(int, E)>,
    q: QueryType<E>,
    key: Option<int>,
)
    requires
        q matches QueryType::MultiSearch(fs, vs, _, _, _, _) && fs@.len() != vs@.len(),
    ensures
        query_spec(rows, q, key) == Err::<Seq<(int, E)>, Error>(Error::InvalidQuery),
{
}

} // verus!
