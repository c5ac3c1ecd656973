//! The in-memory reference backend: an append-ordered vector of
//! `(identifier, entry)` pairs with monotonic identifier allocation. It
//! executes the query pipeline directly and is the correctness oracle the
//! relational planner is proved against.

use crate::interface::{
    all_keys_valid, contains_id, entry_matches, filter_eq, filter_rows, find_row, insert_sorted,
    keyed_model, page_slice, remove_rows, row_index_of, rows_wf, run_pipeline, sort_key_le,
    sort_rows, str_contains_exec, update_rows, veq, Entry, Error, FieldName, Key, QueryType,
    SortDirection, Table, Value, MAX_LIMIT,
};
use vstd::prelude::*;

verus! {

/// A key for a [`VecTable`]: the identifier the table assigned to one
/// stored entry. Always valid; a `VecTable` insert cannot fail.
#[derive(Debug, Clone, Copy, PartialEq, Eq, Structural, Hash)]
pub struct VecTableKey {
    pub id: usize,
}

impl<E: Entry> Key<E> for VecTableKey {
    open spec fn id_spec(self) -> int {
        self.id as int
    }

    open spec fn valid_spec(self) -> bool {
        true
    }
}

/// Rows a vector holds, abstracted to `(identifier, entry)` pairs.
pub open spec fn rows_of<E: Entry>(s: Seq<(usize, E)>) -> Seq<(int, E)> {
    s.map(|i: int, p: (usize, E)| (p.0 as int, p.1))
}

/// A table backed by a growable vector: inserting appends, and the key is
/// the identifier the entry was appended under. Identifiers are never
/// reused, even after removal. Intended as the reference and testing
/// backend.
pub struct VecTable<E: Entry> {
    vector: Vec<(usize, E)>,
    next_key: usize,
}

impl<E: Entry> VecTable<E> {
    /// Gives a new `VecTable` with an empty vector.
    pub fn new() -> (t: VecTable<E>)
        ensures
            t.inv(),
            t.can_insert(),
            t.rows() == Seq::<(int, E)>::empty(),
            t.next_id() == 0,
    {
        let t = VecTable { vector: Vec::new(), next_key: 0 };
        proof {
            assert(t.rows() =~= Seq::<(int, E)>::empty());
        }
        t
    }
}

impl<E: Entry> Default for VecTable<E> {
    /// An empty table, as [`VecTable::new`] gives.
    fn default() -> (t: Self)
        ensures
            t.inv(),
            t.can_insert(),
            t.rows() == Seq::<(int, E)>::empty(),
            t.next_id() == 0,
    {
        VecTable::new()
    }
}

impl<E: Entry> Table<E> for VecTable<E> {
    type Key = VecTableKey;

    closed spec fn rows(&self) -> Seq<(int, E)> {
        rows_of(self.vector@)
    }

    closed spec fn next_id(&self) -> int {
        self.next_key as int
    }

    closed spec fn inv(&self) -> bool {
        &&& forall|i: int, j: int|
            0 <= i < j < self.vector@.len() ==> (#[trigger] self.vector@[i]).0 < (
            #[trigger] self.vector@[j]).0
        &&& forall|i: int|
            0 <= i < self.vector@.len() ==> (#[trigger] self.vector@[i]).0 < self.next_key
    }

    closed spec fn can_insert(&self) -> bool {
        self.next_key < usize::MAX
    }

    proof fn lemma_inv_wf(&self) {
        if self.inv() {
            assert(rows_wf(self.rows(), self.next_id())) by {
                assert forall|i: int, j: int|
                    0 <= i < j < self.rows().len() implies (#[trigger] self.rows()[i]).0 < (
                #[trigger] self.rows()[j]).0 by {
                    assert(self.vector@[i].0 < self.vector@[j].0);
                }
                assert forall|i: int| 0 <= i < self.rows().len() implies 0 <= (
                #[trigger] self.rows()[i]).0 < self.next_id() by {
                    assert(self.vector@[i].0 < self.next_key);
                }
            }
        }
    }

    fn insert(&mut self, entry: E) -> (k: Self::Key) {
        let id = self.next_key;
        self.vector.push((id, entry));
        self.next_key = self.next_key + 1;
        proof {
            assert(self.rows() =~= old(self).rows().push((old(self).next_id(), entry)));
        }
        VecTableKey { id }
    }

    fn lookup(&self, key: Self::Key) -> (r: Option<E>) {
        let ghost id = key.id as int;
        let n = self.vector.len();
        let mut i: usize = 0;
        proof {
            assert(self.rows().skip(0) =~= self.rows());
        }
        while i < n
            invariant
                i <= n,
                n == self.vector@.len(),
                find_row(self.rows(), id) == find_row(self.rows().skip(i as int), id),
                key.id as int == id,
            decreases n - i,
        {
            let p = &self.vector[i];
            proof {
                assert(self.rows().skip(i as int)[0] == self.rows()[i as int]);
            }
            if p.0 == key.id {
                let e = p.1.clone_entry();
                return Some(e);
            }
            proof {
                assert(self.rows().skip(i as int).drop_first() =~= self.rows().skip(i as int + 1));
            }
            i = i + 1;
        }
        proof {
            assert(self.rows().skip(n as int).len() == 0);
        }
        None
    }

    fn update(&mut self, key: Self::Key, entry: E) -> (r: Result<(), Error>) {
        let n = self.vector.len();
        let mut i: usize = 0;
        while i < n
            invariant
                i <= n,
                n == self.vector@.len(),
                *self == *old(self),
                old(self).inv(),
                forall|j: int| 0 <= j < i ==> (#[trigger] self.vector@[j]).0 != key.id,
            decreases n - i,
        {
            if self.vector[i].0 == key.id {
                self.vector[i] = (key.id, entry);
                proof {
                    assert(contains_id(old(self).rows(), key.id as int)) by {
                        assert(old(self).rows()[i as int].0 == key.id as int);
                    }
                    assert(self.rows() =~= update_rows(
                        old(self).rows(),
                        key.id as int,
                        entry,
                    )) by {
                        assert forall|j: int|
                            0 <= j < self.rows().len() implies self.rows()[j] == update_rows(
                            old(self).rows(),
                            key.id as int,
                            entry,
                        )[j] by {
                            if j != i {
                                assert(old(self).vector@[j].0 != old(self).vector@[i as int].0);
                            }
                        }
                    }
                }
                return Ok(());
            }
            i = i + 1;
        }
        proof {
            assert(!contains_id(self.rows(), key.id as int)) by {
                assert forall|j: int| 0 <= j < self.rows().len() implies (
                #[trigger] self.rows()[j]).0 != key.id as int by {
                    assert(self.vector@[j].0 != key.id);
                }
            }
        }
        Err(Error::KeyNotFound)
    }

    fn remove(&mut self, key: Self::Key) -> (r: Result<(), Error>) {
        let n = self.vector.len();
        let mut i: usize = 0;
        while i < n
            invariant
                i <= n,
                n == self.vector@.len(),
                *self == *old(self),
                old(self).inv(),
                forall|j: int| 0 <= j < i ==> (#[trigger] self.vector@[j]).0 != key.id,
            decreases n - i,
        {
            if self.vector[i].0 == key.id {
                self.vector.remove(i);
                proof {
                    let ghost orows = old(self).rows();
                    let ghost id = key.id as int;
                    assert(contains_id(orows, id)) by {
                        assert(orows[i as int].0 == id);
                    }
                    assert(row_index_of(orows, id) == i as int) by {
                        let ch = row_index_of(orows, id);
                        assert(0 <= ch < orows.len() && orows[ch].0 == id);
                        if ch != i as int {
                            assert(old(self).vector@[ch].0 != old(self).vector@[i as int].0);
                        }
                    }
                    assert(self.rows() =~= remove_rows(orows, id));
                    assert forall|a: int, b: int|
                        0 <= a < b < self.vector@.len() implies (
                    #[trigger] self.vector@[a]).0 < (#[trigger] self.vector@[b]).0 by {
                        let oa = if a < i as int {
                            a
                        } else {
                            a + 1
                        };
                        let ob = if b < i as int {
                            b
                        } else {
                            b + 1
                        };
                        assert(old(self).vector@[oa].0 < old(self).vector@[ob].0);
                    }
                    assert forall|a: int| 0 <= a < self.vector@.len() implies (
                    #[trigger] self.vector@[a]).0 < self.next_key by {
                        let oa = if a < i as int {
                            a
                        } else {
                            a + 1
                        };
                        assert(old(self).vector@[oa].0 < old(self).next_key);
                    }
                }
                return Ok(());
            }
            i = i + 1;
        }
        proof {
            assert(!contains_id(self.rows(), key.id as int)) by {
                assert forall|j: int| 0 <= j < self.rows().len() implies (
                #[trigger] self.rows()[j]).0 != key.id as int by {
                    assert(self.vector@[j].0 != key.id);
                }
            }
        }
        Err(Error::KeyNotFound)
    }

    fn contains(&self, key: Self::Key) -> (r: bool) {
        let n = self.vector.len();
        let mut i: usize = 0;
        while i < n
            invariant
                i <= n,
                n == self.vector@.len(),
                forall|j: int| 0 <= j < i ==> (#[trigger] self.rows()[j]).0 != key.id as int,
            decreases n - i,
        {
            if self.vector[i].0 == key.id {
                proof {
                    assert(self.rows()[i as int].0 == key.id as int);
                }
                return true;
            }
            proof {
                assert(self.rows()[i as int].0 != key.id as int);
            }
            i = i + 1;
        }
        false
    }

    fn search(&self, field_name: <E as Entry>::FieldNames, field_value: Value) -> (r: Result<
        Vec<(Self::Key, E)>,
        Error,
    >) {
        let n = self.vector.len();
        let mut out: Vec<(VecTableKey, E)> = Vec::new();
        let mut i: usize = 0;
        proof {
            assert(self.rows().skip(0) =~= self.rows());
            assert(keyed_model(out@) =~= Seq::<(int, E)>::empty());
        }
        while i < n
            invariant
                i <= n,
                n == self.vector@.len(),
                all_keys_valid(out@),
                keyed_model(out@) + filter_eq(
                    self.rows().skip(i as int),
                    field_name,
                    field_value,
                ) == filter_eq(self.rows(), field_name, field_value),
            decreases n - i,
        {
            let p = &self.vector[i];
            proof {
                assert(self.rows().skip(i as int)[0] == self.rows()[i as int]);
                assert(self.rows().skip(i as int).drop_first() =~= self.rows().skip(i as int + 1));
            }
            let field_opt = p.1.get_field(field_name);
            let matched = match &field_opt {
                Some(val) => val.equals(&field_value),
                None => false,
            };
            if matched {
                let ghost out0 = out@;
                out.push((VecTableKey { id: p.0 }, p.1.clone_entry()));
                proof {
                    assert(keyed_model(out@) =~= keyed_model(out0).push(self.rows()[i as int]));
                    assert(keyed_model(out@) + filter_eq(
                        self.rows().skip(i as int + 1),
                        field_name,
                        field_value,
                    ) =~= keyed_model(out0) + filter_eq(
                        self.rows().skip(i as int),
                        field_name,
                        field_value,
                    ));
                }
            }
            i = i + 1;
        }
        proof {
            assert(self.rows().skip(n as int).len() == 0);
            assert(keyed_model(out@) + filter_eq(
                self.rows().skip(n as int),
                field_name,
                field_value,
            ) =~= keyed_model(out@));
        }
        Ok(out)
    }

    fn query(&self, q: QueryType<E>, key: Option<Self::Key>) -> (r: Result<
        Vec<(Self::Key, E)>,
        Error,
    >) {
        match &q {
            QueryType::Lookup => {
                match key {
                    None => Err(Error::InvalidQuery),
                    Some(k) => {
                        match self.lookup(k) {
                            Some(e) => {
                                let mut out: Vec<(VecTableKey, E)> = Vec::new();
                                out.push((k, e));
                                proof {
                                    assert(keyed_model(out@) =~= seq![
                                        (k.id as int, find_row(self.rows(), k.id as int)->Some_0),
                                    ]);
                                }
                                Ok(out)
                            },
                            None => Err(Error::KeyNotFound),
                        }
                    },
                }
            },
            QueryType::Search(_, _, lim, sf, dir, pg) => {
                if *pg == 0 {
                    Err(Error::InvalidQuery)
                } else {
                    Ok(self.run_query(&q, *lim, *sf, *dir, *pg))
                }
            },
            QueryType::GetAll(lim, sf, dir, pg) => {
                if *pg == 0 {
                    Err(Error::InvalidQuery)
                } else {
                    Ok(self.run_query(&q, *lim, *sf, *dir, *pg))
                }
            },
            QueryType::PartialSearch(_, _, lim, sf, dir, pg) => {
                if *pg == 0 {
                    Err(Error::InvalidQuery)
                } else {
                    Ok(self.run_query(&q, *lim, *sf, *dir, *pg))
                }
            },
            QueryType::MultiSearch(fs, vs, lim, sf, dir, pg) => {
                if fs.len() != vs.len() || *pg == 0 {
                    Err(Error::InvalidQuery)
                } else {
                    Ok(self.run_query(&q, *lim, *sf, *dir, *pg))
                }
            },
        }
    }
}

/// Whether an entry satisfies a query's matching rule; agrees with
/// [`entry_matches`].
#[verifier::loop_isolation(false)]
fn matches_query<E: Entry>(e: &E, q: &QueryType<E>) -> (r: bool)
    requires
        match *q {
            QueryType::MultiSearch(fs, vs, _, _, _, _) => fs@.len() == vs@.len(),
            _ => true,
        },
    ensures
        r == entry_matches(*e, *q),
{
    match q {
        QueryType::Lookup => true,
        QueryType::GetAll(_, _, _, _) => true,
        QueryType::Search(f, v, _, _, _, _) => {
            let field_opt = e.get_field(*f);
            match &field_opt {
                Some(val) => val.equals(v),
                None => false,
            }
        },
        QueryType::PartialSearch(f, v, _, _, _, _) => {
            let field_opt = e.get_field(*f);
            match &field_opt {
                Some(val) => {
                    match (val, v) {
                        (Value::String(s), Value::String(needle)) => str_contains_exec(
                            s.as_str(),
                            needle.as_str(),
                        ),
                        _ => false,
                    }
                },
                None => false,
            }
        },
        QueryType::MultiSearch(fs, vs, _, _, _, _) => {
            let n = fs.len();
            let mut i: usize = 0;
            while i < n
                invariant
                    i <= n,
                    n == fs@.len(),
                    vs@.len() == n,
                    forall|j: int|
                        0 <= j < i ==> veq(
                            e.fields_spec()[(#[trigger] fs@[j]).idx() as int],
                            vs@[j],
                        ),
                decreases n - i,
            {
                let field_opt = e.get_field(fs[i]);
                let m = match &field_opt {
                    Some(val) => val.equals(&vs[i]),
                    None => false,
                };
                if !m {
                    proof {
                        assert(!veq(e.fields_spec()[fs@[i as int].idx() as int], vs@[i as int]));
                    }
                    return false;
                }
                i = i + 1;
            }
            true
        },
    }
}

/// An owned copy of one stored pair.
fn clone_pair<E: Entry>(p: &(usize, E)) -> (out: (usize, E))
    ensures
        out == *p,
{
    let out = (p.0, p.1.clone_entry());
    proof {
        assert(out == *p);
    }
    out
}

/// Whether `a` sorts at or before `b`; agrees with [`sort_key_le`].
fn row_le_exec<E: Entry>(
    sf: <E as Entry>::FieldNames,
    dir: SortDirection,
    a: &(usize, E),
    b: &(usize, E),
) -> (r: bool)
    ensures
        r == sort_key_le(sf, dir, (a.0 as int, a.1), (b.0 as int, b.1)),
{
    let va_opt = a.1.get_field(sf);
    let vb_opt = b.1.get_field(sf);
    match (&va_opt, &vb_opt) {
        (Some(va), Some(vb)) => {
            let c = crate::interface::compare_values(va, vb);
            let d: i8 = match dir {
                SortDirection::Asc => c,
                SortDirection::Desc => -c,
            };
            d < 0 || (d == 0 && a.0 <= b.0)
        },
        _ => false,
    }
}

/// Places `x` into an already sorted vector; the result's rows are
/// [`insert_sorted`] of the inputs' rows.
fn insert_pair<E: Entry>(
    sf: <E as Entry>::FieldNames,
    dir: SortDirection,
    x: (usize, E),
    v: Vec<(usize, E)>,
) -> (out: Vec<(usize, E)>)
    ensures
        rows_of(out@) == insert_sorted(sf, dir, (x.0 as int, x.1), rows_of(v@)),
    decreases v@.len(),
{
    let ghost xm = (x.0 as int, x.1);
    let ghost v0 = v@;
    if v.len() == 0 {
        let mut out = v;
        out.push(x);
        proof {
            assert(rows_of(out@) =~= seq![xm]);
        }
        out
    } else {
        let le = row_le_exec(sf, dir, &v[0], &x);
        proof {
            assert(rows_of(v0)[0] == (v0[0].0 as int, v0[0].1));
        }
        if le {
            let mut v = v;
            let h = v.remove(0);
            proof {
                assert(v@ =~= v0.drop_first());
                assert(rows_of(v@) =~= rows_of(v0).drop_first());
            }
            let mut rest = insert_pair(sf, dir, x, v);
            let ghost rest0 = rest@;
            rest.insert(0, h);
            proof {
                assert(rows_of(rest@) =~= seq![rows_of(v0)[0]] + rows_of(rest0));
            }
            rest
        } else {
            let mut v = v;
            v.insert(0, x);
            proof {
                assert(rows_of(v@) =~= seq![xm] + rows_of(v0));
            }
            v
        }
    }
}

/// Sorts the pairs into query order; the result's rows are [`sort_rows`]
/// of the input's rows.
fn sort_pairs<E: Entry>(
    sf: <E as Entry>::FieldNames,
    dir: SortDirection,
    v: Vec<(usize, E)>,
) -> (out: Vec<(usize, E)>)
    ensures
        rows_of(out@) == sort_rows(sf, dir, rows_of(v@)),
    decreases v@.len(),
{
    let ghost v0 = v@;
    if v.len() == 0 {
        proof {
            assert(rows_of(v@) =~= Seq::<(int, E)>::empty());
        }
        v
    } else {
        let mut v = v;
        let x = v.remove(0);
        proof {
            assert(v@ =~= v0.drop_first());
            assert(rows_of(v@) =~= rows_of(v0).drop_first());
            assert(rows_of(v0)[0] == (v0[0].0 as int, v0[0].1));
        }
        let rest = sort_pairs(sf, dir, v);
        insert_pair(sf, dir, x, rest)
    }
}

/// Cuts one page out of the sorted pairs; the result's rows are
/// [`page_slice`] of the input's rows.
fn paginate<E: Entry>(v: Vec<(usize, E)>, lim: u16, pg: u16) -> (out: Vec<(usize, E)>)
    requires
        pg >= 1,
    ensures
        rows_of(out@) == page_slice(rows_of(v@), lim, pg),
{
    let l: usize = if lim > MAX_LIMIT {
        MAX_LIMIT as usize
    } else {
        lim as usize
    };
    assert(l * ((pg - 1) as usize) <= 100 * 65534) by (nonlinear_arith)
        requires
            l <= 100,
            pg >= 1,
            pg <= 65535,
    ;
    let start: usize = l * ((pg - 1) as usize);
    let n = v.len();
    let mut out: Vec<(usize, E)> = Vec::new();
    if start >= n {
        proof {
            assert(rows_of(out@) =~= page_slice(rows_of(v@), lim, pg));
        }
        return out;
    }
    let mut i: usize = start;
    while i < n && i - start < l
        invariant
            start <= i <= n,
            n == v@.len(),
            i - start <= l,
            rows_of(out@) =~= rows_of(v@).subrange(start as int, i as int),
        decreases n - i,
    {
        let ghost out0 = out@;
        let p = clone_pair(&v[i]);
        out.push(p);
        proof {
            assert(rows_of(out@) =~= rows_of(out0).push((v@[i as int].0 as int, v@[i as int].1)));
            assert(rows_of(out@) =~= rows_of(v@).subrange(start as int, i as int + 1));
        }
        i = i + 1;
    }
    proof {
        assert(i == n || i - start == l);
        assert(rows_of(out@) =~= page_slice(rows_of(v@), lim, pg));
    }
    out
}

impl<E: Entry> VecTable<E> {
    /// Runs filter, sort and pagination for one paged query variant.
    fn run_query(
        &self,
        q: &QueryType<E>,
        lim: u16,
        sf: <E as Entry>::FieldNames,
        dir: SortDirection,
        pg: u16,
    ) -> (out: Vec<(VecTableKey, E)>)
        requires
            pg >= 1,
            match *q {
                QueryType::MultiSearch(fs, vs, _, _, _, _) => fs@.len() == vs@.len(),
                _ => true,
            },
        ensures
            keyed_model(out@) == run_pipeline(self.rows(), *q, lim, sf, dir, pg),
            all_keys_valid(out@),
    {
        let n = self.vector.len();
        let mut kept: Vec<(usize, E)> = Vec::new();
        let mut i: usize = 0;
        proof {
            assert(self.rows().skip(0) =~= self.rows());
            assert(rows_of(kept@) =~= Seq::<(int, E)>::empty());
        }
        while i < n
            invariant
                i <= n,
                n == self.vector@.len(),
                match *q {
                    QueryType::MultiSearch(fs, vs, _, _, _, _) => fs@.len() == vs@.len(),
                    _ => true,
                },
                rows_of(kept@) + filter_rows(self.rows().skip(i as int), *q) == filter_rows(
                    self.rows(),
                    *q,
                ),
            decreases n - i,
        {
            let p = &self.vector[i];
            proof {
                assert(self.rows().skip(i as int)[0] == self.rows()[i as int]);
                assert(self.rows().skip(i as int).drop_first() =~= self.rows().skip(i as int + 1));
            }
            if matches_query(&p.1, q) {
                let ghost kept0 = kept@;
                kept.push(clone_pair(p));
                proof {
                    assert(rows_of(kept@) =~= rows_of(kept0).push(self.rows()[i as int]));
                    assert(rows_of(kept@) + filter_rows(self.rows().skip(i as int + 1), *q)
                        =~= rows_of(kept0) + filter_rows(self.rows().skip(i as int), *q));
                }
            }
            i = i + 1;
        }
        proof {
            assert(self.rows().skip(n as int).len() == 0);
            assert(rows_of(kept@) + filter_rows(self.rows().skip(n as int), *q) =~= rows_of(
                kept@,
            ));
        }
        let sorted = sort_pairs(sf, dir, kept);
        let paged = paginate(sorted, lim, pg);
        let m = paged.len();
        let mut out: Vec<(VecTableKey, E)> = Vec::new();
        let mut j: usize = 0;
        proof {
            assert(keyed_model(out@) =~= rows_of(paged@).subrange(0, 0));
        }
        while j < m
            invariant
                j <= m,
                m == paged@.len(),
                all_keys_valid(out@),
                keyed_model(out@) =~= rows_of(paged@).subrange(0, j as int),
            decreases m - j,
        {
            let ghost out0 = out@;
            let p = &paged[j];
            out.push((VecTableKey { id: p.0 }, p.1.clone_entry()));
            proof {
                assert(keyed_model(out@) =~= keyed_model(out0).push(
                    (paged@[j as int].0 as int, paged@[j as int].1),
                ));
                assert(keyed_model(out@) =~= rows_of(paged@).subrange(0, j as int + 1));
            }
            j = j + 1;
        }
        proof {
            assert(rows_of(paged@).subrange(0, m as int) =~= rows_of(paged@));
        }
        out
    }
}

} // verus!
