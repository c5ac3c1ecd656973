//! The relational side of the storage abstraction: everything a relational
//! adapter decides is planned and proved here, over plain values.
//!
//! The planner turns a query into one structured [`Command`] — filter rule,
//! sort field and direction, offset and limit — whose semantics
//! ([`eval_command`]) are proved to reproduce the reference pipeline
//! exactly: same clamp, same 1-indexing, same tie-break. The marshaler
//! decodes the backend's rows — identifier column first, then the fields in
//! declaration order — back into keyed entries, aborting whole on a
//! malformed row. An adapter that renders the command faithfully therefore
//! returns exactly what the in-memory backend would; that equivalence is
//! [`lemma_backend_equivalence`].

use crate::interface::{
    all_keys_valid, clamped_limit, filter_rows, find_row, keyed_model,
    lemma_insert_sorted_subset, lemma_sort_rows_subset, offset_limit, opt_key_id, query_spec,
    run_pipeline, sort_rows, Entry, Error, Key, QueryType, SortDirection, Value, MAX_LIMIT,
};
use vstd::prelude::*;
use vstd::slice::slice_subrange;

verus! {

/// A key for a relational table: the row's identifier column, plus a
/// validity mark — an insert whose write failed hands back a key marked
/// invalid instead of raising.
#[derive(Debug, Clone, Copy, PartialEq, Eq, Structural, Hash)]
pub struct MysqlTableKey {
    pub id: i32,
    pub valid: bool,
}

impl<E: Entry> Key<E> for MysqlTableKey {
    open spec fn id_spec(self) -> int {
        self.id as int
    }

    open spec fn valid_spec(self) -> bool {
        self.valid
    }
}

/// One structured read request for a relational backend. The core never
/// writes backend syntax; the adapter renders this intent.
pub enum Command<E: Entry> {
    /// The single row carrying one identifier.
    SelectById(i32),
    /// The rows matching the query's rule, ordered by the field in the
    /// given direction with ties broken by ascending identifier, then cut
    /// to `limit` rows starting at `offset`.
    SelectWhere(QueryType<E>, <E as Entry>::FieldNames, SortDirection, u32, u16),
}

/// What a faithful backend returns for a command, over the table's rows.
pub open spec fn eval_command<E: Entry>(rows: Seq<(int, E)>, c: Command<E>) -> Seq<(int, E)> {
    match c {
        Command::SelectById(id) => {
            match find_row(rows, id as int) {
                Some(e) => seq![(id as int, e)],
                None => Seq::empty(),
            }
        },
        Command::SelectWhere(q, sf, dir, offset, limit) => {
            offset_limit(sort_rows(sf, dir, filter_rows(rows, q)), offset as int, limit as int)
        },
    }
}

/// The command a query plans to, or the error that rejects it: the same
/// shape checks as [`query_spec`], with the pipeline parameters rendered
/// into clamp, offset and limit.
pub open spec fn plan_spec<E: Entry>(q: QueryType<E>, key: Option<MysqlTableKey>) -> Result<
    Command<E>,
    Error,
> {
    match q {
        QueryType::Lookup => {
            match key {
                None => Err(Error::InvalidQuery),
                Some(k) => Ok(Command::SelectById(k.id)),
            }
        },
        QueryType::Search(_, _, lim, sf, dir, pg) => {
            if pg == 0 {
                Err(Error::InvalidQuery)
            } else {
                Ok(
                    Command::SelectWhere(
                        q,
                        sf,
                        dir,
                        (clamped_limit(lim) * (pg as int - 1)) as u32,
                        (clamped_limit(lim)) as u16,
                    ),
                )
            }
        },
        QueryType::GetAll(lim, sf, dir, pg) => {
            if pg == 0 {
                Err(Error::InvalidQuery)
            } else {
                Ok(
                    Command::SelectWhere(
                        q,
                        sf,
                        dir,
                        (clamped_limit(lim) * (pg as int - 1)) as u32,
                        (clamped_limit(lim)) as u16,
                    ),
                )
            }
        },
        QueryType::PartialSearch(_, _, lim, sf, dir, pg) => {
            if pg == 0 {
                Err(Error::InvalidQuery)
            } else {
                Ok(
                    Command::SelectWhere(
                        q,
                        sf,
                        dir,
                        (clamped_limit(lim) * (pg as int - 1)) as u32,
                        (clamped_limit(lim)) as u16,
                    ),
                )
            }
        },
        QueryType::MultiSearch(fs, vs, lim, sf, dir, pg) => {
            if fs@.len() != vs@.len() || pg == 0 {
                Err(Error::InvalidQuery)
            } else {
                Ok(
                    Command::SelectWhere(
                        q,
                        sf,
                        dir,
                        (clamped_limit(lim) * (pg as int - 1)) as u32,
                        (clamped_limit(lim)) as u16,
                    ),
                )
            }
        },
    }
}

/// Plans one query into a backend command, per [`plan_spec`].
pub fn plan_query<E: Entry>(q: QueryType<E>, key: Option<MysqlTableKey>) -> (r: Result<
    Command<E>,
    Error,
>)
    ensures
        r == plan_spec(q, key),
{
    match q {
        QueryType::Lookup => {
            match key {
                None => Err(Error::InvalidQuery),
                Some(k) => Ok(Command::SelectById(k.id)),
            }
        },
        QueryType::Search(f, v, lim, sf, dir, pg) => {
            if pg == 0 {
                Err(Error::InvalidQuery)
            } else {
                let l: u16 = if lim > MAX_LIMIT {
                    MAX_LIMIT
                } else {
                    lim
                };
                assert((l as u32) * ((pg - 1) as u32) <= 100 * 65534) by (nonlinear_arith)
                    requires
                        l <= 100,
                        1 <= pg <= 65535,
                ;
                let offset: u32 = (l as u32) * ((pg - 1) as u32);
                Ok(Command::SelectWhere(QueryType::Search(f, v, lim, sf, dir, pg), sf, dir, offset, l))
            }
        },
        QueryType::GetAll(lim, sf, dir, pg) => {
            if pg == 0 {
                Err(Error::InvalidQuery)
            } else {
                let l: u16 = if lim > MAX_LIMIT {
                    MAX_LIMIT
                } else {
                    lim
                };
                assert((l as u32) * ((pg - 1) as u32) <= 100 * 65534) by (nonlinear_arith)
                    requires
                        l <= 100,
                        1 <= pg <= 65535,
                ;
                let offset: u32 = (l as u32) * ((pg - 1) as u32);
                Ok(Command::SelectWhere(QueryType::GetAll(lim, sf, dir, pg), sf, dir, offset, l))
            }
        },
        QueryType::PartialSearch(f, v, lim, sf, dir, pg) => {
            if pg == 0 {
                Err(Error::InvalidQuery)
            } else {
                let l: u16 = if lim > MAX_LIMIT {
                    MAX_LIMIT
                } else {
                    lim
                };
                assert((l as u32) * ((pg - 1) as u32) <= 100 * 65534) by (nonlinear_arith)
                    requires
                        l <= 100,
                        1 <= pg <= 65535,
                ;
                let offset: u32 = (l as u32) * ((pg - 1) as u32);
                Ok(
                    Command::SelectWhere(
                        QueryType::PartialSearch(f, v, lim, sf, dir, pg),
                        sf,
                        dir,
                        offset,
                        l,
                    ),
                )
            }
        },
        QueryType::MultiSearch(fs, vs, lim, sf, dir, pg) => {
            if fs.len() != vs.len() || pg == 0 {
                Err(Error::InvalidQuery)
            } else {
                let l: u16 = if lim > MAX_LIMIT {
                    MAX_LIMIT
                } else {
                    lim
                };
                assert((l as u32) * ((pg - 1) as u32) <= 100 * 65534) by (nonlinear_arith)
                    requires
                        l <= 100,
                        1 <= pg <= 65535,
                ;
                let offset: u32 = (l as u32) * ((pg - 1) as u32);
                Ok(
                    Command::SelectWhere(
                        QueryType::MultiSearch(fs, vs, lim, sf, dir, pg),
                        sf,
                        dir,
                        offset,
                        l,
                    ),
                )
            }
        },
    }
}

/// The text with a backslash put before every single quote.
pub open spec fn escaped_quotes(s: Seq<char>) -> Seq<char>
    decreases s.len(),
{
    if s.len() == 0 {
        Seq::empty()
    } else if s[0] == '\'' {
        seq!['\\', '\''] + escaped_quotes(s.drop_first())
    } else {
        seq![s[0]] + escaped_quotes(s.drop_first())
    }
}

/// Escaping distributes over concatenation.
proof fn lemma_escaped_quotes_append(a: Seq<char>, b: Seq<char>)
    ensures
        escaped_quotes(a + b) == escaped_quotes(a) + escaped_quotes(b),
    decreases a.len(),
{
    if a.len() == 0 {
        assert(a + b =~= b);
        assert(escaped_quotes(a) + escaped_quotes(b) =~= escaped_quotes(b));
    } else {
        lemma_escaped_quotes_append(a.drop_first(), b);
        assert((a + b).drop_first() =~= a.drop_first() + b);
        assert((a + b)[0] == a[0]);
        if a[0] == '\'' {
            assert(seq!['\\', '\''] + (escaped_quotes(a.drop_first()) + escaped_quotes(b))
                =~= (seq!['\\', '\''] + escaped_quotes(a.drop_first())) + escaped_quotes(b));
        } else {
            assert(seq![a[0]] + (escaped_quotes(a.drop_first()) + escaped_quotes(b)) =~= (seq![
                a[0],
            ] + escaped_quotes(a.drop_first())) + escaped_quotes(b));
        }
    }
}

/// A value as one backend literal: strings quoted, with every embedded
/// single quote escaped; integers and booleans as their plain text.
pub open spec fn mysql_literal(v: Value) -> Seq<char> {
    match v {
        Value::String(s) => seq!['\''] + escaped_quotes(s@) + seq!['\''],
        _ => crate::interface::value_text(v),
    }
}

/// Renders one value as a backend literal, per [`mysql_literal`]. The
/// adapter that assembles whole statements lives outside the core; only
/// this one value-to-text step is shared logic. Floats are rendered by
/// the layer that owns native floats.
pub fn ivalue_to_mystring(data: &Value) -> (s: String)
    requires
        !(data is Float),
    ensures
        s@ == mysql_literal(*data),
{
    match data {
        Value::String(st) => {
            let mut out = String::new();
            out.append("'");
            proof {
                reveal_strlit("'");
                assert(Seq::<char>::empty() + "'"@ =~= seq!['\'']);
                assert(st@.subrange(0, 0) =~= Seq::<char>::empty());
            }
            let n = st.as_str().unicode_len();
            let mut i: usize = 0;
            while i < n
                invariant
                    i <= n,
                    n == st@.len(),
                    out@ == seq!['\''] + escaped_quotes(st@.subrange(0, i as int)),
                decreases n - i,
            {
                let c = st.as_str().get_char(i);
                let ghost out0 = out@;
                if c == '\'' {
                    out.append("\\'");
                    proof {
                        reveal_strlit("\\'");
                        assert(out@ =~= out0 + seq!['\\', '\'']);
                    }
                } else {
                    let piece = st.as_str().substring_char(i, i + 1);
                    out.append(piece);
                    proof {
                        assert(piece@ =~= seq![st@[i as int]]);
                    }
                }
                proof {
                    let pre = st@.subrange(0, i as int);
                    let one = seq![st@[i as int]];
                    assert(st@.subrange(0, i as int + 1) =~= pre + one);
                    lemma_escaped_quotes_append(pre, one);
                    assert(one.drop_first() =~= Seq::<char>::empty());
                    assert(escaped_quotes(Seq::<char>::empty()) == Seq::<char>::empty());
                    assert(one[0] == c);
                    if c == '\'' {
                        assert(escaped_quotes(one) =~= seq!['\\', '\'']);
                        assert(out@ =~= seq!['\''] + escaped_quotes(st@.subrange(0, i as int + 1)));
                    } else {
                        assert(escaped_quotes(one) =~= one);
                        assert(out@ =~= seq!['\''] + escaped_quotes(st@.subrange(0, i as int + 1)));
                    }
                }
                i = i + 1;
            }
            out.append("'");
            proof {
                reveal_strlit("'");
                assert(st@.subrange(0, n as int) =~= st@);
                assert(out@ =~= seq!['\''] + escaped_quotes(st@) + seq!['\'']);
            }
            out
        },
        _ => data.to_text(),
    }
}

/// The key an insert hands back, from the backend write's outcome: the
/// reported identifier when the write went through, a key marked invalid
/// when it failed — a failed insert never raises.
pub fn key_from_insert(write_ok: bool, last_id: i32) -> (k: MysqlTableKey)
    ensures
        write_ok ==> k.id == last_id && k.valid,
        !write_ok ==> !k.valid,
{
    if write_ok {
        MysqlTableKey { id: last_id, valid: true }
    } else {
        MysqlTableKey { id: 0, valid: false }
    }
}

/// One row in the persisted layout: the identifier column first, then the
/// entry's values in field-declaration order.
pub open spec fn encode_row<E: Entry>(r: (int, E)) -> Seq<Value> {
    seq![Value::Integer(r.0 as i32)] + r.1.fields_spec()
}

/// A result set in the persisted layout.
pub open spec fn encode_rows<E: Entry>(s: Seq<(int, E)>) -> Seq<Seq<Value>> {
    s.map(|i: int, r: (int, E)| encode_row(r))
}

/// The keyed entry one backend row denotes: `None` when the identifier
/// column is missing or not an integer, or the remaining values rebuild no
/// entry.
pub open spec fn decode_row<E: Entry>(row: Seq<Value>) -> Option<(i32, E)> {
    if row.len() == 0 {
        None
    } else {
        match row[0] {
            Value::Integer(id) => {
                match E::from_fields_spec(row.drop_first()) {
                    Some(e) => Some((id, e)),
                    None => None,
                }
            },
            _ => None,
        }
    }
}

/// The rows a whole result set denotes; `None` — the whole query aborts —
/// as soon as one row is malformed, since a structurally inconsistent row
/// means the backend's schema no longer matches the declared fields.
pub open spec fn decode_rows_spec<E: Entry>(rs: Seq<Seq<Value>>) -> Option<Seq<(int, E)>>
    decreases rs.len(),
{
    if rs.len() == 0 {
        Some(Seq::empty())
    } else {
        match decode_row::<E>(rs[0]) {
            Some(p) => {
                match decode_rows_spec::<E>(rs.drop_first()) {
                    Some(rest) => Some(seq![(p.0 as int, p.1)] + rest),
                    None => None,
                }
            },
            None => None,
        }
    }
}

/// A result set of value vectors, abstracted to value sequences.
pub open spec fn rowset_view(rs: Seq<Vec<Value>>) -> Seq<Seq<Value>> {
    rs.map(|i: int, row: Vec<Value>| row@)
}

/// Decodes a backend result set into keyed entries, per
/// [`decode_rows_spec`]; every key is marked valid. Fails with
/// `SchemaMismatch`, discarding all rows, when any row is malformed.
pub fn decode_rows<E: Entry>(rs: &Vec<Vec<Value>>) -> (r: Result<Vec<(MysqlTableKey, E)>, Error>)
    ensures
        match r {
            Ok(v) => decode_rows_spec::<E>(rowset_view(rs@)) == Some(keyed_model(v@))
                && all_keys_valid(v@),
            Err(e) => decode_rows_spec::<E>(rowset_view(rs@)) is None && e
                == Error::SchemaMismatch,
        },
{
    let n = rs.len();
    let mut out: Vec<(MysqlTableKey, E)> = Vec::new();
    let mut i: usize = 0;
    proof {
        assert(rowset_view(rs@).skip(0) =~= rowset_view(rs@));
        assert(keyed_model(out@) =~= Seq::<(int, E)>::empty());
    }
    while i < n
        invariant
            i <= n,
            n == rs@.len(),
            all_keys_valid(out@),
            match decode_rows_spec::<E>(rowset_view(rs@).skip(i as int)) {
                Some(rest) => decode_rows_spec::<E>(rowset_view(rs@)) == Some(
                    keyed_model(out@) + rest,
                ),
                None => decode_rows_spec::<E>(rowset_view(rs@)) is None,
            },
        decreases n - i,
    {
        let row = &rs[i];
        proof {
            assert(rowset_view(rs@).skip(i as int)[0] == rs@[i as int]@);
            assert(rowset_view(rs@).skip(i as int).drop_first() =~= rowset_view(rs@).skip(
                i as int + 1,
            ));
        }
        if row.len() == 0 {
            return Err(Error::SchemaMismatch);
        }
        let id: i32 = match &row[0] {
            Value::Integer(id) => *id,
            _ => {
                return Err(Error::SchemaMismatch);
            },
        };
        let tail = slice_subrange(row.as_slice(), 1, row.len());
        proof {
            assert(tail@ =~= rs@[i as int]@.drop_first());
        }
        match E::from_fields(tail) {
            Ok(e) => {
                let ghost out0 = out@;
                out.push((MysqlTableKey { id, valid: true }, e));
                proof {
                    assert(keyed_model(out@) =~= keyed_model(out0).push((id as int, e)));
                    match decode_rows_spec::<E>(rowset_view(rs@).skip(i as int + 1)) {
                        Some(rest) => {
                            assert(keyed_model(out@) + rest =~= keyed_model(out0) + (seq![
                                (id as int, e),
                            ] + rest));
                        },
                        None => {},
                    }
                }
            },
            Err(_) => {
                return Err(Error::SchemaMismatch);
            },
        }
        i = i + 1;
    }
    proof {
        assert(rowset_view(rs@).skip(n as int).len() == 0);
        assert(keyed_model(out@) + Seq::<(int, E)>::empty() =~= keyed_model(out@));
    }
    Ok(out)
}

/// Law (planner half of backend equivalence): a planned command, executed
/// per its semantics over the same rows, returns exactly what the
/// reference pipeline returns — and the planner rejects exactly the
/// queries the reference rejects, except that an absent `Lookup` key shows
/// up as an empty command result, which the adapter reports as
/// `KeyNotFound`.
pub proof fn lemma_plan_matches_query<E: Entry>(
    rows: Seq<(int, E)>,
    q: QueryType<E>,
    key: Option<MysqlTableKey>,
)
    ensures
        match plan_spec(q, key) {
            Ok(c) => {
                match query_spec(rows, q, opt_key_id::<E, MysqlTableKey>(key)) {
                    Ok(s) => eval_command(rows, c) == s && !(q is Lookup
                        && eval_command(rows, c).len() == 0),
                    Err(e) => q is Lookup && e == Error::KeyNotFound && eval_command(
                        rows,
                        c,
                    ).len() == 0,
                }
            },
            Err(e) => query_spec(rows, q, opt_key_id::<E, MysqlTableKey>(key)) == Err::<Seq<(int, E)>, Error>(e),
        },
{
    match q {
        QueryType::Lookup => {
            match key {
                None => {},
                Some(k) => {
                    match find_row(rows, k.id as int) {
                        Some(e) => {
                            assert(eval_command(rows, Command::SelectById(k.id)) =~= seq![
                                (k.id as int, e),
                            ]);
                        },
                        None => {},
                    }
                },
            }
        },
        QueryType::Search(_, _, lim, sf, dir, pg) => {
            if pg != 0 {
                lemma_select_where_runs_pipeline(rows, q, lim, sf, dir, pg);
            }
        },
        QueryType::GetAll(lim, sf, dir, pg) => {
            if pg != 0 {
                lemma_select_where_runs_pipeline(rows, q, lim, sf, dir, pg);
            }
        },
        QueryType::PartialSearch(_, _, lim, sf, dir, pg) => {
            if pg != 0 {
                lemma_select_where_runs_pipeline(rows, q, lim, sf, dir, pg);
            }
        },
        QueryType::MultiSearch(fs, vs, lim, sf, dir, pg) => {
            if fs@.len() == vs@.len() && pg != 0 {
                lemma_select_where_runs_pipeline(rows, q, lim, sf, dir, pg);
            }
        },
    }
}

/// A planned `SelectWhere`'s offset and limit cut exactly the page the
/// reference pipeline cuts.
proof fn lemma_select_where_runs_pipeline<E: Entry>(
    rows: Seq<(int, E)>,
    q: QueryType<E>,
    lim: u16,
    sf: <E as Entry>::FieldNames,
    dir: SortDirection,
    pg: u16,
)
    requires
        pg >= 1,
    ensures
        eval_command(
            rows,
            Command::SelectWhere(
                q,
                sf,
                dir,
                (clamped_limit(lim) * (pg as int - 1)) as u32,
                (clamped_limit(lim)) as u16,
            ),
        ) == run_pipeline(rows, q, lim, sf, dir, pg),
{
    let l = clamped_limit(lim);
    assert(l * (pg as int - 1) <= 100 * 65534) by (nonlinear_arith)
        requires
            0 <= l <= 100,
            1 <= pg <= 65535,
    ;
    assert(0 <= l * (pg as int - 1)) by (nonlinear_arith)
        requires
            0 <= l,
            1 <= pg,
    ;
    assert(((l * (pg as int - 1)) as u32) as int == l * (pg as int - 1));
    assert((l as u16) as int == l);
}

/// Whether every identifier fits the relational identifier column.
pub open spec fn ids_fit_i32<E: Entry>(rows: Seq<(int, E)>) -> bool {
    forall|i: int| 0 <= i < rows.len() ==> i32::MIN <= (#[trigger] rows[i]).0 <= i32::MAX
}

/// Filtering keeps only rows of the input.
proof fn lemma_filter_rows_subset<E: Entry>(rows: Seq<(int, E)>, q: QueryType<E>)
    ensures
        forall|i: int|
            0 <= i < filter_rows(rows, q).len() ==> rows.contains(
                #[trigger] filter_rows(rows, q)[i],
            ),
    decreases rows.len(),
{
    if rows.len() > 0 {
        lemma_filter_rows_subset(rows.drop_first(), q);
        let f = filter_rows(rows, q);
        let rest = filter_rows(rows.drop_first(), q);
        assert forall|i: int| 0 <= i < f.len() implies rows.contains(#[trigger] f[i]) by {
            if entry_matches_head(rows, q) && i == 0 {
                assert(rows[0] == f[0]);
            } else {
                let ri = if entry_matches_head(rows, q) {
                    i - 1
                } else {
                    i
                };
                assert(f[i] == rest[ri]);
                assert(rows.drop_first().contains(rest[ri]));
                let j = choose|j: int|
                    0 <= j < rows.drop_first().len() && rows.drop_first()[j] == rest[ri];
                assert(rows[j + 1] == rest[ri]);
            }
        }
    }
}

/// Whether the first row matches; spelled out so case splits in proofs
/// line up with [`filter_rows`]'s branches.
spec fn entry_matches_head<E: Entry>(rows: Seq<(int, E)>, q: QueryType<E>) -> bool {
    crate::interface::entry_matches(rows[0].1, q)
}

/// Identifiers still fit after the whole pipeline: it only rearranges and
/// drops rows.
proof fn lemma_pipeline_ids_fit<E: Entry>(
    rows: Seq<(int, E)>,
    q: QueryType<E>,
    sf: <E as Entry>::FieldNames,
    dir: SortDirection,
    offset: int,
    limit: int,
)
    requires
        ids_fit_i32(rows),
        0 <= offset,
        0 <= limit,
    ensures
        ids_fit_i32(offset_limit(sort_rows(sf, dir, filter_rows(rows, q)), offset, limit)),
{
    let filtered = filter_rows(rows, q);
    let sorted = sort_rows(sf, dir, filtered);
    let paged = offset_limit(sorted, offset, limit);
    lemma_filter_rows_subset(rows, q);
    lemma_sort_rows_subset(sf, dir, filtered);
    assert forall|i: int| 0 <= i < paged.len() implies i32::MIN <= (#[trigger] paged[i]).0
        <= i32::MAX by {
        assert(paged[i] == sorted[offset + i]);
        assert(filtered.contains(sorted[offset + i]));
        let j = choose|j: int| 0 <= j < filtered.len() && filtered[j] == sorted[offset + i];
        assert(rows.contains(filtered[j]));
        let m = choose|m: int| 0 <= m < rows.len() && rows[m] == filtered[j];
        assert(i32::MIN <= rows[m].0 <= i32::MAX);
    }
}

/// Encoding rows in the persisted layout and decoding them back yields the
/// rows unchanged — the entry round-trip law lifted to whole result sets.
proof fn lemma_decode_encode<E: Entry>(s: Seq<(int, E)>)
    requires
        ids_fit_i32(s),
    ensures
        decode_rows_spec::<E>(encode_rows(s)) == Some(s),
    decreases s.len(),
{
    if s.len() == 0 {
        assert(encode_rows(s).len() == 0);
        assert(Seq::<(int, E)>::empty() =~= s);
    } else {
        let enc = encode_rows(s);
        let row = enc[0];
        assert(row == encode_row(s[0]));
        assert(row[0] == Value::Integer(s[0].0 as i32));
        assert(row.drop_first() =~= s[0].1.fields_spec());
        s[0].1.lemma_round_trip();
        assert(decode_row::<E>(row) == Some((s[0].0 as i32, s[0].1)));
        assert(enc.drop_first() =~= encode_rows(s.drop_first()));
        assert(ids_fit_i32(s.drop_first())) by {
            assert forall|i: int| 0 <= i < s.drop_first().len() implies i32::MIN <= (
            #[trigger] s.drop_first()[i]).0 <= i32::MAX by {
                assert(s.drop_first()[i] == s[i + 1]);
            }
        }
        lemma_decode_encode::<E>(s.drop_first());
        assert((s[0].0 as i32) as int == s[0].0);
        assert(seq![(s[0].0, s[0].1)] + s.drop_first() =~= s);
    }
}

/// Law (backend equivalence): over any fixed table state and any query, a
/// relational backend that executes the planned command faithfully — its
/// result set holds exactly the command's rows in the persisted layout —
/// decodes to exactly the sequence the in-memory reference pipeline
/// returns, up to key representation; and both sides reject exactly the
/// same malformed queries.
pub proof fn lemma_backend_equivalence<E: Entry>(
    rows: Seq<(int, E)>,
    q: QueryType<E>,
    key: Option<MysqlTableKey>,
)
    requires
        ids_fit_i32(rows),
    ensures
        match query_spec(rows, q, opt_key_id::<E, MysqlTableKey>(key)) {
            Ok(s) => plan_spec(q, key) matches Ok(c) && decode_rows_spec::<E>(
                encode_rows(eval_command(rows, c)),
            ) == Some(s),
            Err(e) => {
                match plan_spec(q, key) {
                    Ok(c) => q is Lookup && e == Error::KeyNotFound && eval_command(
                        rows,
                        c,
                    ).len() == 0,
                    Err(pe) => pe == e,
                }
            },
        },
{
    lemma_plan_matches_query(rows, q, key);
    match plan_spec(q, key) {
        Ok(c) => {
            match query_spec(rows, q, opt_key_id::<E, MysqlTableKey>(key)) {
                Ok(s) => {
                    assert(eval_command(rows, c) == s);
                    assert(ids_fit_i32(s)) by {
                        match c {
                            Command::SelectById(id) => {
                                assert forall|i: int| 0 <= i < s.len() implies i32::MIN <= (
                                #[trigger] s[i]).0 <= i32::MAX by {
                                    assert(s[i].0 == id as int);
                                }
                            },
                            Command::SelectWhere(cq, sf, dir, offset, limit) => {
                                lemma_pipeline_ids_fit(
                                    rows,
                                    cq,
                                    sf,
                                    dir,
                                    offset as int,
                                    limit as int,
                                );
                            },
                        }
                    }
                    lemma_decode_encode::<E>(s);
                },
                Err(_) => {},
            }
        },
        Err(_) => {},
    }
}

} // verus!
