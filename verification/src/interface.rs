//! The storage abstraction's interface: scalar [`Value`]s and their
//! ordering, the error taxonomy, the [`FieldName`] / [`Entry`] / [`Key`]
//! type system, the [`QueryType`] algebra with its execution pipeline —
//! filter, stable sort, paginate — and the [`Table`] contract every
//! backend is held to.

use vstd::prelude::*;

verus! {

/// Largest page size a query will honour; larger requests are clamped.
pub const MAX_LIMIT: u16 = 100;

/// What can go wrong inside the storage layer.
#[derive(Clone, Copy, Debug, PartialEq, Eq, Structural)]
pub enum Error {
    /// A `Value` was read as an incompatible type.
    WrongType,
    /// An entry could not be built from a value sequence: wrong arity or an
    /// incompatible variant at some position.
    SchemaMismatch,
    /// An operation referenced a key that does not resolve in this table.
    KeyNotFound,
    /// A query was malformed for its required shape.
    InvalidQuery,
    /// A field name supplied at the boundary is not in the declared set.
    FieldNotMatched,
    /// The relational collaborator reported a connectivity or execution
    /// failure.
    BackendFailure,
}

/// Direction in which a query sorts its results.
#[derive(Clone, Copy, Debug, PartialEq, Eq, Structural)]
pub enum SortDirection {
    Asc,
    Desc,
}

/// A scalar stored in one field of an entry.
///
/// The float variant carries the value's IEEE 754 bit pattern: two floats are
/// equal exactly when their bits are, and they are ordered by the standard's
/// total order on bit patterns. Callers that work with native floats convert
/// through `f32::to_bits` / `f32::from_bits` at the boundary.
#[derive(Clone, Debug, PartialEq)]
pub enum Value {
    Integer(i32),
    Float(u32),
    String(String),
    Boolean(bool),
}

/// Value equality as the query engine observes it: same variant, same
/// content, with strings compared by their characters.
pub open spec fn veq(a: Value, b: Value) -> bool {
    match (a, b) {
        (Value::Integer(x), Value::Integer(y)) => x == y,
        (Value::Float(x), Value::Float(y)) => x == y,
        (Value::String(x), Value::String(y)) => x@ == y@,
        (Value::Boolean(x), Value::Boolean(y)) => x == y,
        _ => false,
    }
}

/// Maps a float's bit pattern to an integer that sorts by the IEEE 754
/// total order: negative values (sign bit set) reverse their magnitude
/// order, positive values keep it.
pub open spec fn float_order_key(bits: u32) -> int {
    if bits >= 0x8000_0000 {
        0xFFFF_FFFFu32 - bits
    } else {
        bits + 0x8000_0000
    }
}

/// Lexicographic comparison of two character sequences; -1, 0 or 1.
pub open spec fn str_cmp(a: Seq<char>, b: Seq<char>) -> int
    decreases a.len(),
{
    if a.len() == 0 && b.len() == 0 {
        0
    } else if a.len() == 0 {
        -1
    } else if b.len() == 0 {
        1
    } else if a[0] < b[0] {
        -1
    } else if b[0] < a[0] {
        1
    } else {
        str_cmp(a.drop_first(), b.drop_first())
    }
}

/// Comparison of two values: -1, 0 or 1. Values of different variants are
/// incomparable and treated as equal, so that a sort falls back to the
/// tie-break order; within one schema-homogeneous field this never happens.
pub open spec fn value_cmp(a: Value, b: Value) -> int {
    match (a, b) {
        (Value::Integer(x), Value::Integer(y)) => if x < y {
            -1
        } else if x == y {
            0
        } else {
            1
        },
        (Value::Float(x), Value::Float(y)) => if float_order_key(x) < float_order_key(y) {
            -1
        } else if float_order_key(x) == float_order_key(y) {
            0
        } else {
            1
        },
        (Value::String(x), Value::String(y)) => str_cmp(x@, y@),
        (Value::Boolean(x), Value::Boolean(y)) => if !x && y {
            -1
        } else if x == y {
            0
        } else {
            1
        },
        _ => 0,
    }
}

/// Whether two values carry the same variant. Within one schema-typed
/// field this always holds; [`value_cmp`] is a total order there.
pub open spec fn same_variant(a: Value, b: Value) -> bool {
    match (a, b) {
        (Value::Integer(_), Value::Integer(_)) => true,
        (Value::Float(_), Value::Float(_)) => true,
        (Value::String(_), Value::String(_)) => true,
        (Value::Boolean(_), Value::Boolean(_)) => true,
        _ => false,
    }
}

/// [`value_cmp`] is antisymmetric: swapping the sides flips the sign.
pub proof fn lemma_value_cmp_antisym(a: Value, b: Value)
    ensures
        value_cmp(a, b) == -value_cmp(b, a),
{
    match (a, b) {
        (Value::String(x), Value::String(y)) => {
            lemma_str_cmp_antisym(x@, y@);
        },
        _ => {},
    }
}

/// [`value_cmp`]'s strict order is transitive within one variant.
pub proof fn lemma_value_cmp_lt_trans(a: Value, b: Value, c: Value)
    requires
        same_variant(a, b),
        same_variant(b, c),
        value_cmp(a, b) < 0,
        value_cmp(b, c) < 0,
    ensures
        value_cmp(a, c) < 0,
{
    match (a, b, c) {
        (Value::String(x), Value::String(y), Value::String(z)) => {
            lemma_str_cmp_lt_trans(x@, y@, z@);
        },
        _ => {},
    }
}

/// A value that compares equal to another of the same variant compares
/// the same way against everything: [`value_cmp`] cannot tell them apart.
pub proof fn lemma_value_cmp_zero_subst(a: Value, b: Value, c: Value)
    requires
        same_variant(b, c),
        value_cmp(b, c) == 0,
    ensures
        value_cmp(a, b) == value_cmp(a, c),
        value_cmp(b, a) == value_cmp(c, a),
{
    match (b, c) {
        (Value::String(y), Value::String(z)) => {
            lemma_str_cmp_zero(y@, z@);
            match a {
                Value::String(x) => {
                    lemma_str_cmp_antisym(x@, y@);
                    lemma_str_cmp_antisym(x@, z@);
                },
                _ => {},
            }
        },
        _ => {},
    }
}

impl Value {
    /// Whether two values are equal in the sense of [`veq`].
    pub fn equals(&self, other: &Value) -> (r: bool)
        ensures
            r == veq(*self, *other),
    {
        match (self, other) {
            (Value::Integer(x), Value::Integer(y)) => *x == *y,
            (Value::Float(x), Value::Float(y)) => *x == *y,
            (Value::String(x), Value::String(y)) => *x == *y,
            (Value::Boolean(x), Value::Boolean(y)) => *x == *y,
            _ => false,
        }
    }
}

/// The character for one decimal digit.
pub open spec fn digit_char(d: int) -> char {
    if d == 0 {
        '0'
    } else if d == 1 {
        '1'
    } else if d == 2 {
        '2'
    } else if d == 3 {
        '3'
    } else if d == 4 {
        '4'
    } else if d == 5 {
        '5'
    } else if d == 6 {
        '6'
    } else if d == 7 {
        '7'
    } else if d == 8 {
        '8'
    } else {
        '9'
    }
}

/// Decimal representation of a non-negative integer, most significant digit
/// first.
pub open spec fn dec_rep(n: int) -> Seq<char>
    decreases n,
{
    if n < 10 {
        seq![digit_char(n)]
    } else {
        dec_rep(n / 10) + seq![digit_char(n % 10)]
    }
}

/// Decimal representation of an integer, with a leading minus sign when
/// negative.
pub open spec fn int_text(n: int) -> Seq<char> {
    if n < 0 {
        seq!['-'] + dec_rep(-n)
    } else {
        dec_rep(n)
    }
}

/// The text form of a value: decimal for integers, the string itself for
/// strings, `true`/`false` for booleans. Float bit patterns have no text
/// form in this layer.
pub open spec fn value_text(v: Value) -> Seq<char> {
    match v {
        Value::Integer(i) => int_text(i as int),
        Value::String(s) => s@,
        Value::Boolean(b) => if b {
            "true"@
        } else {
            "false"@
        },
        Value::Float(_) => Seq::empty(),
    }
}

/// The one-character string for a decimal digit.
fn digit_str(d: u32) -> (r: &'static str)
    requires
        d < 10,
    ensures
        r@ =~= seq![digit_char(d as int)],
{
    proof {
        reveal_strlit("0");
        reveal_strlit("1");
        reveal_strlit("2");
        reveal_strlit("3");
        reveal_strlit("4");
        reveal_strlit("5");
        reveal_strlit("6");
        reveal_strlit("7");
        reveal_strlit("8");
        reveal_strlit("9");
    }
    match d {
        0 => "0",
        1 => "1",
        2 => "2",
        3 => "3",
        4 => "4",
        5 => "5",
        6 => "6",
        7 => "7",
        8 => "8",
        _ => "9",
    }
}

/// Appends the decimal digits of `n` to `s`.
fn push_decimal(s: &mut String, n: u32)
    ensures
        final(s)@ == old(s)@ + dec_rep(n as int),
    decreases n,
{
    if n < 10 {
        s.append(digit_str(n));
    } else {
        push_decimal(s, n / 10);
        s.append(digit_str(n % 10));
        proof {
            assert(old(s)@ + dec_rep(n as int / 10) + seq![digit_char(n as int % 10)] =~= old(
                s,
            )@ + (dec_rep(n as int / 10) + seq![digit_char(n as int % 10)]));
        }
    }
}

impl Value {
    /// The text form of this value, per [`value_text`]. Rendering a float's
    /// bit pattern is left to the layer that owns native floats.
    pub fn to_text(&self) -> (s: String)
        requires
            !(self is Float),
        ensures
            s@ == value_text(*self),
    {
        match self {
            Value::Integer(i) => {
                let mut s = String::new();
                let magnitude: u32 = if *i < 0 {
                    s.append("-");
                    proof {
                        reveal_strlit("-");
                        assert(Seq::<char>::empty() + "-"@ =~= seq!['-']);
                    }
                    ((-(*i as i64)) as u32)
                } else {
                    (*i as u32)
                };
                push_decimal(&mut s, magnitude);
                s
            },
            Value::String(st) => st.clone(),
            Value::Boolean(b) => {
                if *b {
                    "true".to_owned()
                } else {
                    "false".to_owned()
                }
            },
            Value::Float(_) => String::new(),
        }
    }
}

/// Fallible typed extraction from a [`Value`], one implementation per
/// scalar type the union can carry.
pub trait ITryInto<T>: Sized {
    /// What the extraction yields: the payload when the variant matches,
    /// `WrongType` otherwise.
    spec fn itry_into_spec(self) -> Result<T, Error>;

    /// Extracts the payload if this value has the right variant.
    fn itry_into(self) -> (r: Result<T, Error>)
        ensures
            r == self.itry_into_spec(),
    ;
}

impl ITryInto<i32> for Value {
    open spec fn itry_into_spec(self) -> Result<i32, Error> {
        match self {
            Value::Integer(i) => Ok(i),
            _ => Err(Error::WrongType),
        }
    }

    fn itry_into(self) -> (r: Result<i32, Error>) {
        match self {
            Value::Integer(i) => Ok(i),
            _ => Err(Error::WrongType),
        }
    }
}

impl ITryInto<u32> for Value {
    open spec fn itry_into_spec(self) -> Result<u32, Error> {
        match self {
            Value::Float(bits) => Ok(bits),
            _ => Err(Error::WrongType),
        }
    }

    fn itry_into(self) -> (r: Result<u32, Error>) {
        match self {
            Value::Float(bits) => Ok(bits),
            _ => Err(Error::WrongType),
        }
    }
}

impl ITryInto<String> for Value {
    open spec fn itry_into_spec(self) -> Result<String, Error> {
        match self {
            Value::String(s) => Ok(s),
            _ => Err(Error::WrongType),
        }
    }

    fn itry_into(self) -> (r: Result<String, Error>) {
        match self {
            Value::String(s) => Ok(s),
            _ => Err(Error::WrongType),
        }
    }
}

impl ITryInto<bool> for Value {
    open spec fn itry_into_spec(self) -> Result<bool, Error> {
        match self {
            Value::Boolean(b) => Ok(b),
            _ => Err(Error::WrongType),
        }
    }

    fn itry_into(self) -> (r: Result<bool, Error>) {
        match self {
            Value::Boolean(b) => Ok(b),
            _ => Err(Error::WrongType),
        }
    }
}

/// One entry type's closed, ordered set of field identifiers.
///
/// Each identifier owns a position in declaration order (`idx`), which fixes
/// where its value sits when an entry is flattened to a value sequence, and a
/// string form that round-trips through parsing.
pub trait FieldName: Sized + Copy {
    /// How many fields the entry type declares.
    spec fn arity() -> nat;

    /// This field's canonical position, below `arity`.
    spec fn idx(self) -> nat;

    /// This field's string form.
    spec fn text(self) -> Seq<char>;

    /// Which field a string names, if any.
    spec fn from_text_spec(s: Seq<char>) -> Option<Self>;

    /// Every field's position is below the declared arity.
    proof fn lemma_idx_bound(self)
        ensures
            self.idx() < Self::arity(),
    ;

    /// No two distinct fields share a position.
    proof fn lemma_idx_injective(self, other: Self)
        ensures
            self.idx() == other.idx() ==> self == other,
    ;

    /// A field's string form parses back to the field itself.
    proof fn lemma_text_round_trip(self)
        ensures
            Self::from_text_spec(self.text()) == Some(self),
    ;

    /// This field's canonical position.
    fn index(self) -> (i: usize)
        ensures
            i as nat == self.idx(),
    ;

    /// This field's string form.
    fn to_text(self) -> (s: String)
        ensures
            s@ == self.text(),
    ;

    /// Parses a field from its string form.
    fn from_text(s: &str) -> (r: Result<Self, Error>)
        ensures
            match r {
                Ok(f) => Self::from_text_spec(s@) == Some(f),
                Err(e) => Self::from_text_spec(s@) is None && e == Error::FieldNotMatched,
            },
    ;
}

/// A record stored in a table: a fixed-arity row of [`Value`]s aligned with
/// its [`FieldName`] enumeration.
pub trait Entry: Sized {
    type FieldNames: FieldName;

    /// The entry flattened to its value sequence, in canonical field order.
    spec fn fields_spec(&self) -> Seq<Value>;

    /// Which entry a value sequence denotes: `None` when the arity is wrong
    /// or some position holds an incompatible variant.
    spec fn from_fields_spec(values: Seq<Value>) -> Option<Self>;

    /// An entry flattens to exactly one value per declared field.
    proof fn lemma_fields_len(&self)
        ensures
            self.fields_spec().len() == Self::FieldNames::arity(),
    ;

    /// Flattening an entry and rebuilding it yields the entry back.
    proof fn lemma_round_trip(&self)
        ensures
            Self::from_fields_spec(self.fields_spec()) == Some(*self),
    ;

    /// Rebuilds an entry from a value sequence; fails with `SchemaMismatch`
    /// exactly when no entry matches the sequence.
    fn from_fields(values: &[Value]) -> (r: Result<Self, Error>)
        ensures
            match r {
                Ok(e) => Self::from_fields_spec(values@) == Some(e),
                Err(err) => Self::from_fields_spec(values@) is None && err
                    == Error::SchemaMismatch,
            },
    ;

    /// All field identifiers, in canonical order.
    fn get_field_names() -> (v: Vec<Self::FieldNames>)
        ensures
            v@.len() == Self::FieldNames::arity(),
            forall|i: int| 0 <= i < v@.len() ==> (#[trigger] v@[i]).idx() == i,
    ;

    /// The entry's values, in canonical field order.
    fn get_fields(&self) -> (v: Vec<Value>)
        ensures
            v@ == self.fields_spec(),
    ;

    /// The value at one field's canonical position.
    fn get_field(&self, field_name: Self::FieldNames) -> (r: Option<Value>)
        ensures
            r == Some(self.fields_spec()[field_name.idx() as int]),
    ;

    /// A copy of the entry, equal to the original.
    fn clone_entry(&self) -> (e: Self)
        ensures
            e == *self,
    ;
}

/// An opaque handle to one stored record, issued by a table and bound to
/// that table's entry type. Calling code never constructs one.
pub trait Key<E: Entry>: Sized + Copy {
    /// The identifier this key carries.
    spec fn id_spec(self) -> int;

    /// Whether the key refers to a record at all; a table may hand out a
    /// marked-invalid key when a write failed.
    spec fn valid_spec(self) -> bool;
}

/// The closed algebra of read requests a table executes.
///
/// Paged variants carry, in order: a page size (clamped to [`MAX_LIMIT`]),
/// the field to sort by, the sort direction, and a 1-indexed page number.
pub enum QueryType<E: Entry> {
    /// The record one key resolves to; the key is passed beside the query.
    Lookup,
    /// Records whose value at one field equals a value exactly.
    Search(E::FieldNames, Value, u16, E::FieldNames, SortDirection, u16),
    /// Every record, paged.
    GetAll(u16, E::FieldNames, SortDirection, u16),
    /// Records whose string value at one field contains a substring; only
    /// string-typed fields match.
    PartialSearch(E::FieldNames, Value, u16, E::FieldNames, SortDirection, u16),
    /// Records matching every one of the paired field/value equalities; the
    /// two lists must have equal lengths.
    MultiSearch(Vec<E::FieldNames>, Vec<Value>, u16, E::FieldNames, SortDirection, u16),
}

/// Compares two strings lexicographically; result agrees with [`str_cmp`].
fn cmp_str(a: &str, b: &str) -> (c: i8)
    ensures
        c as int == str_cmp(a@, b@),
        -1 <= c <= 1,
{
    let a_len = a.unicode_len();
    let b_len = b.unicode_len();
    let mut i: usize = 0;
    proof {
        assert(a@.skip(0) =~= a@);
        assert(b@.skip(0) =~= b@);
    }
    loop
        invariant
            i <= a_len,
            i <= b_len,
            a_len == a@.len(),
            b_len == b@.len(),
            a@.subrange(0, i as int) =~= b@.subrange(0, i as int),
            str_cmp(a@, b@) == str_cmp(a@.skip(i as int), b@.skip(i as int)),
        decreases a_len - i,
    {
        if i >= a_len && i >= b_len {
            assert(a@.skip(i as int).len() == 0 && b@.skip(i as int).len() == 0);
            return 0;
        }
        if i >= a_len {
            assert(a@.skip(i as int).len() == 0 && b@.skip(i as int).len() > 0);
            return -1;
        }
        if i >= b_len {
            assert(b@.skip(i as int).len() == 0 && a@.skip(i as int).len() > 0);
            return 1;
        }
        let ca = a.get_char(i);
        let cb = b.get_char(i);
        assert(a@.skip(i as int)[0] == ca && b@.skip(i as int)[0] == cb);
        if ca < cb {
            return -1;
        }
        if cb < ca {
            return 1;
        }
        proof {
            assert(a@.skip(i as int).drop_first() =~= a@.skip(i + 1));
            assert(b@.skip(i as int).drop_first() =~= b@.skip(i + 1));
            assert(a@.subrange(0, i + 1) =~= b@.subrange(0, i + 1));
        }
        i = i + 1;
    }
}

/// [`str_cmp`] reports zero exactly on equal sequences.
pub proof fn lemma_str_cmp_zero(a: Seq<char>, b: Seq<char>)
    ensures
        (str_cmp(a, b) == 0) <==> (a == b),
    decreases a.len(),
{
    if a.len() == 0 && b.len() == 0 {
        assert(a =~= b);
    } else if a.len() == 0 || b.len() == 0 {
        assert(a.len() != b.len());
    } else if a[0] < b[0] || b[0] < a[0] {
        assert(a != b) by {
            assert(a[0] != b[0]);
        }
    } else {
        lemma_str_cmp_zero(a.drop_first(), b.drop_first());
        if str_cmp(a, b) == 0 {
            assert(a[0] == b[0]);
            assert(a.drop_first() == b.drop_first());
            assert(a.len() == b.len());
            assert forall|i: int| 0 <= i < a.len() implies a[i] == b[i] by {
                if i > 0 {
                    assert(a[i] == a.drop_first()[i - 1]);
                    assert(b[i] == b.drop_first()[i - 1]);
                }
            }
            assert(a =~= b);
        }
        if a == b {
            assert(a.drop_first() == b.drop_first());
        }
    }
}

/// [`str_cmp`] is antisymmetric: swapping the sides flips the sign.
pub proof fn lemma_str_cmp_antisym(a: Seq<char>, b: Seq<char>)
    ensures
        str_cmp(a, b) == -str_cmp(b, a),
    decreases a.len(),
{
    if a.len() > 0 && b.len() > 0 && !(a[0] < b[0]) && !(b[0] < a[0]) {
        lemma_str_cmp_antisym(a.drop_first(), b.drop_first());
    }
}

/// [`str_cmp`]'s strict order is transitive.
pub proof fn lemma_str_cmp_lt_trans(a: Seq<char>, b: Seq<char>, c: Seq<char>)
    requires
        str_cmp(a, b) < 0,
        str_cmp(b, c) < 0,
    ensures
        str_cmp(a, c) < 0,
    decreases a.len(),
{
    if a.len() == 0 {
        assert(b.len() > 0);
        assert(c.len() > 0);
    } else {
        assert(b.len() > 0);
        assert(c.len() > 0);
        if !(a[0] < c[0]) && !(c[0] < a[0]) {
            if a[0] < b[0] || b[0] < a[0] {
                assert(a[0] < b[0]);
                assert(b[0] < c[0] || (!(b[0] < c[0]) && !(c[0] < b[0])));
                assert(false);
            } else if b[0] < c[0] || c[0] < b[0] {
                assert(b[0] < c[0]);
                assert(false);
            } else {
                lemma_str_cmp_lt_trans(a.drop_first(), b.drop_first(), c.drop_first());
            }
        }
    }
}

/// Whether two strings have the same characters.
pub fn str_eq(a: &str, b: &str) -> (r: bool)
    ensures
        r == (a@ == b@),
{
    let c = cmp_str(a, b);
    proof {
        lemma_str_cmp_zero(a@, b@);
    }
    c == 0
}

/// Compares two values; the result agrees with [`value_cmp`].
pub fn compare_values(a: &Value, b: &Value) -> (c: i8)
    ensures
        c as int == value_cmp(*a, *b),
        -1 <= c <= 1,
{
    match (a, b) {
        (Value::Integer(x), Value::Integer(y)) => {
            if *x < *y {
                -1
            } else if *x == *y {
                0
            } else {
                1
            }
        },
        (Value::Float(x), Value::Float(y)) => {
            let kx: u64 = float_key_exec(*x);
            let ky: u64 = float_key_exec(*y);
            if kx < ky {
                -1
            } else if kx == ky {
                0
            } else {
                1
            }
        },
        (Value::String(x), Value::String(y)) => cmp_str(x.as_str(), y.as_str()),
        (Value::Boolean(x), Value::Boolean(y)) => {
            if !*x && *y {
                -1
            } else if *x == *y {
                0
            } else {
                1
            }
        },
        _ => 0,
    }
}

/// Computes [`float_order_key`] of a bit pattern.
fn float_key_exec(bits: u32) -> (k: u64)
    ensures
        k as int == float_order_key(bits),
{
    if bits >= 0x8000_0000 {
        (0xFFFF_FFFFu64 - bits as u64)
    } else {
        (bits as u64 + 0x8000_0000)
    }
}

/// Whether `needle` occurs as a contiguous run of characters in `hay`.
pub open spec fn str_contains(hay: Seq<char>, needle: Seq<char>) -> bool {
    exists|i: int|
        0 <= i <= hay.len() - needle.len() && #[trigger] hay.subrange(i, i + needle.len())
            == needle
}

/// Whether `needle` occurs in `hay` starting at position `i`.
fn match_at(hay: &str, needle: &str, i: usize, h_len: usize, n_len: usize) -> (r: bool)
    requires
        h_len == hay@.len(),
        n_len == needle@.len(),
        n_len <= h_len,
        i <= h_len - n_len,
    ensures
        r == (hay@.subrange(i as int, i + n_len) == needle@),
{
    let mut j: usize = 0;
    while j < n_len
        invariant
            h_len == hay@.len(),
            n_len == needle@.len(),
            n_len <= h_len,
            i <= h_len - n_len,
            j <= n_len,
            forall|k: int| 0 <= k < j ==> hay@[i + k] == needle@[k],
        decreases n_len - j,
    {
        let ch = hay.get_char(i + j);
        let cn = needle.get_char(j);
        if ch != cn {
            proof {
                assert(hay@.subrange(i as int, i + n_len)[j as int] == hay@[i + j]);
            }
            return false;
        }
        j = j + 1;
    }
    proof {
        assert(hay@.subrange(i as int, i + n_len) =~= needle@);
    }
    true
}

/// Substring search; the result agrees with [`str_contains`].
pub fn str_contains_exec(hay: &str, needle: &str) -> (r: bool)
    ensures
        r == str_contains(hay@, needle@),
{
    let h_len = hay.unicode_len();
    let n_len = needle.unicode_len();
    if n_len > h_len {
        return false;
    }
    if n_len == 0 {
        proof {
            assert(hay@.subrange(0, 0 + needle@.len() as int) =~= needle@);
        }
        return true;
    }
    let mut i: usize = 0;
    while i <= h_len - n_len
        invariant
            h_len == hay@.len(),
            n_len == needle@.len(),
            0 < n_len <= h_len,
            i <= h_len - n_len + 1,
            forall|k: int|
                0 <= k < i ==> #[trigger] hay@.subrange(k, k + n_len as int) != needle@,
        decreases h_len - n_len - i + 1,
    {
        if match_at(hay, needle, i, h_len, n_len) {
            return true;
        }
        i = i + 1;
    }
    false
}

/// Rows as a query pipeline sees them: `(id, entry)` pairs in insertion
/// order, every identifier non-negative, strictly increasing, and below the
/// allocator's next identifier.
pub open spec fn rows_wf<E: Entry>(rows: Seq<(int, E)>, next: int) -> bool {
    &&& forall|i: int, j: int|
        0 <= i < j < rows.len() ==> (#[trigger] rows[i]).0 < (#[trigger] rows[j]).0
    &&& forall|i: int| 0 <= i < rows.len() ==> 0 <= (#[trigger] rows[i]).0 < next
}

/// The entry stored under an identifier: the first row that carries it.
pub open spec fn find_row<E: Entry>(rows: Seq<(int, E)>, id: int) -> Option<E>
    decreases rows.len(),
{
    if rows.len() == 0 {
        None
    } else if rows[0].0 == id {
        Some(rows[0].1)
    } else {
        find_row(rows.drop_first(), id)
    }
}

/// Whether some row carries the identifier.
pub open spec fn contains_id<E: Entry>(rows: Seq<(int, E)>, id: int) -> bool {
    exists|i: int| 0 <= i < rows.len() && (#[trigger] rows[i]).0 == id
}

/// [`find_row`] succeeds exactly on identifiers some row carries.
pub proof fn lemma_find_row_contains<E: Entry>(rows: Seq<(int, E)>, id: int)
    ensures
        (find_row(rows, id) is Some) <==> contains_id(rows, id),
    decreases rows.len(),
{
    if rows.len() == 0 {
    } else if rows[0].0 == id {
    } else {
        lemma_find_row_contains(rows.drop_first(), id);
        if contains_id(rows.drop_first(), id) {
            let i = choose|i: int|
                0 <= i < rows.drop_first().len() && rows.drop_first()[i].0 == id;
            assert(rows[i + 1].0 == id);
        }
        if contains_id(rows, id) {
            let i = choose|i: int| 0 <= i < rows.len() && rows[i].0 == id;
            assert(rows.drop_first()[i - 1].0 == id);
        }
    }
}

/// Every row unchanged but the one carrying `id`, whose entry becomes `e`.
pub open spec fn update_rows<E: Entry>(rows: Seq<(int, E)>, id: int, e: E) -> Seq<(int, E)> {
    rows.map(
        |i: int, r: (int, E)|
            if r.0 == id {
                (r.0, e)
            } else {
                r
            },
    )
}

/// The position of the row carrying `id`.
pub open spec fn row_index_of<E: Entry>(rows: Seq<(int, E)>, id: int) -> int {
    choose|i: int| 0 <= i < rows.len() && (#[trigger] rows[i]).0 == id
}

/// The rows with the one carrying `id` taken out, order preserved.
pub open spec fn remove_rows<E: Entry>(rows: Seq<(int, E)>, id: int) -> Seq<(int, E)> {
    if contains_id(rows, id) {
        rows.remove(row_index_of(rows, id))
    } else {
        rows
    }
}

/// Whether an entry satisfies a query's matching rule. `Lookup` is resolved
/// by key instead, and a full scan accepts everything.
pub open spec fn entry_matches<E: Entry>(e: E, q: QueryType<E>) -> bool {
    match q {
        QueryType::Lookup => true,
        QueryType::GetAll(_, _, _, _) => true,
        QueryType::Search(f, v, _, _, _, _) => veq(e.fields_spec()[f.idx() as int], v),
        QueryType::PartialSearch(f, v, _, _, _, _) => {
            match (e.fields_spec()[f.idx() as int], v) {
                (Value::String(s), Value::String(needle)) => str_contains(s@, needle@),
                _ => false,
            }
        },
        QueryType::MultiSearch(fs, vs, _, _, _, _) => {
            forall|i: int|
                0 <= i < fs@.len() ==> veq(
                    e.fields_spec()[(#[trigger] fs@[i]).idx() as int],
                    vs@[i],
                )
        },
    }
}

/// The rows whose entries match the query, in their original order.
pub open spec fn filter_rows<E: Entry>(rows: Seq<(int, E)>, q: QueryType<E>) -> Seq<(int, E)>
    decreases rows.len(),
{
    if rows.len() == 0 {
        Seq::empty()
    } else {
        let rest = filter_rows(rows.drop_first(), q);
        if entry_matches(rows[0].1, q) {
            seq![rows[0]] + rest
        } else {
            rest
        }
    }
}

/// The rows whose value at one field equals `v`, in their original order;
/// the matching rule of a plain `search`.
pub open spec fn filter_eq<E: Entry>(
    rows: Seq<(int, E)>,
    f: <E as Entry>::FieldNames,
    v: Value,
) -> Seq<(int, E)>
    decreases rows.len(),
{
    if rows.len() == 0 {
        Seq::empty()
    } else {
        let rest = filter_eq(rows.drop_first(), f, v);
        if veq(rows[0].1.fields_spec()[f.idx() as int], v) {
            seq![rows[0]] + rest
        } else {
            rest
        }
    }
}

/// Sort order over rows: by the value at the sort field, in the requested
/// direction, ties broken by ascending identifier — which, for rows kept in
/// insertion order, is exactly stable sorting.
pub open spec fn sort_key_le<E: Entry>(
    sf: <E as Entry>::FieldNames,
    dir: SortDirection,
    a: (int, E),
    b: (int, E),
) -> bool {
    let c = value_cmp(a.1.fields_spec()[sf.idx() as int], b.1.fields_spec()[sf.idx() as int]);
    let d = if dir is Desc {
        -c
    } else {
        c
    };
    d < 0 || (d == 0 && a.0 <= b.0)
}

/// `x` placed into an already sorted sequence, after every row that sorts
/// at or before it.
pub open spec fn insert_sorted<E: Entry>(
    sf: <E as Entry>::FieldNames,
    dir: SortDirection,
    x: (int, E),
    s: Seq<(int, E)>,
) -> Seq<(int, E)>
    decreases s.len(),
{
    if s.len() == 0 {
        seq![x]
    } else if sort_key_le(sf, dir, s[0], x) {
        seq![s[0]] + insert_sorted(sf, dir, x, s.drop_first())
    } else {
        seq![x] + s
    }
}

/// The rows rearranged into sort order: insertion sort at the
/// specification level.
pub open spec fn sort_rows<E: Entry>(
    sf: <E as Entry>::FieldNames,
    dir: SortDirection,
    s: Seq<(int, E)>,
) -> Seq<(int, E)>
    decreases s.len(),
{
    if s.len() == 0 {
        Seq::empty()
    } else {
        insert_sorted(sf, dir, s[0], sort_rows(sf, dir, s.drop_first()))
    }
}

/// Inserting into a sorted sequence adds that one row.
pub proof fn lemma_insert_sorted_subset<E: Entry>(
    sf: <E as Entry>::FieldNames,
    dir: SortDirection,
    x: (int, E),
    s: Seq<(int, E)>,
)
    ensures
        forall|i: int|
            0 <= i < insert_sorted(sf, dir, x, s).len() ==> (#[trigger] insert_sorted(
                sf,
                dir,
                x,
                s,
            )[i]) == x || s.contains(insert_sorted(sf, dir, x, s)[i]),
    decreases s.len(),
{
    let out = insert_sorted(sf, dir, x, s);
    if s.len() == 0 {
    } else if sort_key_le(sf, dir, s[0], x) {
        lemma_insert_sorted_subset(sf, dir, x, s.drop_first());
        let rest = insert_sorted(sf, dir, x, s.drop_first());
        assert forall|i: int| 0 <= i < out.len() implies (#[trigger] out[i]) == x || s.contains(
            out[i],
        ) by {
            if i == 0 {
                assert(out[0] == s[0]);
            } else {
                assert(out[i] == rest[i - 1]);
                if rest[i - 1] != x {
                    assert(s.drop_first().contains(rest[i - 1]));
                    let j = choose|j: int|
                        0 <= j < s.drop_first().len() && s.drop_first()[j] == rest[i - 1];
                    assert(s[j + 1] == rest[i - 1]);
                }
            }
        }
    } else {
        assert forall|i: int| 0 <= i < out.len() implies (#[trigger] out[i]) == x || s.contains(
            out[i],
        ) by {
            if i > 0 {
                assert(out[i] == s[i - 1]);
            }
        }
    }
}

/// Sorting permutes: every row of the result is a row of the input.
pub proof fn lemma_sort_rows_subset<E: Entry>(
    sf: <E as Entry>::FieldNames,
    dir: SortDirection,
    s: Seq<(int, E)>,
)
    ensures
        forall|i: int|
            0 <= i < sort_rows(sf, dir, s).len() ==> s.contains(#[trigger] sort_rows(sf, dir, s)[i]),
    decreases s.len(),
{
    if s.len() > 0 {
        lemma_sort_rows_subset(sf, dir, s.drop_first());
        lemma_insert_sorted_subset(sf, dir, s[0], sort_rows(sf, dir, s.drop_first()));
        let sorted_rest = sort_rows(sf, dir, s.drop_first());
        let out = sort_rows(sf, dir, s);
        assert forall|i: int| 0 <= i < out.len() implies s.contains(#[trigger] out[i]) by {
            if out[i] == s[0] {
            } else {
                assert(sorted_rest.contains(out[i]));
                let j = choose|j: int| 0 <= j < sorted_rest.len() && sorted_rest[j] == out[i];
                assert(s.drop_first().contains(out[i]));
                let m = choose|m: int|
                    0 <= m < s.drop_first().len() && s.drop_first()[m] == out[i];
                assert(s[m + 1] == out[i]);
            }
        }
    }
}

/// A page size clamped to [`MAX_LIMIT`].
pub open spec fn clamped_limit(lim: u16) -> int {
    if lim > MAX_LIMIT {
        MAX_LIMIT as int
    } else {
        lim as int
    }
}

/// At most `limit` rows of `s` starting at row `offset`; empty past the
/// end. The slice an offset/limit clause cuts out.
pub open spec fn offset_limit<E: Entry>(s: Seq<(int, E)>, offset: int, limit: int) -> Seq<
    (int, E),
> {
    if offset >= s.len() {
        Seq::empty()
    } else if offset + limit <= s.len() {
        s.subrange(offset, offset + limit)
    } else {
        s.subrange(offset, s.len() as int)
    }
}

/// The 1-indexed page `pg` of `s`: `clamped_limit(lim)` rows starting at
/// row `clamped_limit(lim) * (pg - 1)`; empty past the end.
pub open spec fn page_slice<E: Entry>(s: Seq<(int, E)>, lim: u16, pg: u16) -> Seq<(int, E)> {
    let l = clamped_limit(lim);
    offset_limit(s, l * (pg as int - 1), l)
}

/// Filter, sort, then paginate: the pipeline every paged query variant
/// runs, identical across backends.
pub open spec fn run_pipeline<E: Entry>(
    rows: Seq<(int, E)>,
    q: QueryType<E>,
    lim: u16,
    sf: <E as Entry>::FieldNames,
    dir: SortDirection,
    pg: u16,
) -> Seq<(int, E)> {
    page_slice(sort_rows(sf, dir, filter_rows(rows, q)), lim, pg)
}

/// What a query returns over a table state, or which error it raises:
///
/// * `Lookup` needs a key beside the query (`InvalidQuery` otherwise) and
///   resolves it to its single row, `KeyNotFound` when it resolves to none;
/// * every paged variant rejects page number zero as `InvalidQuery` — pages
///   are 1-indexed — and otherwise runs the pipeline;
/// * `MultiSearch` additionally rejects field and value lists of different
///   lengths as `InvalidQuery`;
/// * a key beside a non-`Lookup` query is ignored.
pub open spec fn query_spec<E: Entry>(
    rows: Seq<(int, E)>,
    q: QueryType<E>,
    key: Option<int>,
) -> Result<Seq<(int, E)>, Error> {
    match q {
        QueryType::Lookup => {
            match key {
                None => Err(Error::InvalidQuery),
                Some(id) => {
                    match find_row(rows, id) {
                        Some(e) => Ok(seq![(id, e)]),
                        None => Err(Error::KeyNotFound),
                    }
                },
            }
        },
        QueryType::Search(_, _, lim, sf, dir, pg) => {
            if pg == 0 {
                Err(Error::InvalidQuery)
            } else {
                Ok(run_pipeline(rows, q, lim, sf, dir, pg))
            }
        },
        QueryType::GetAll(lim, sf, dir, pg) => {
            if pg == 0 {
                Err(Error::InvalidQuery)
            } else {
                Ok(run_pipeline(rows, q, lim, sf, dir, pg))
            }
        },
        QueryType::PartialSearch(_, _, lim, sf, dir, pg) => {
            if pg == 0 {
                Err(Error::InvalidQuery)
            } else {
                Ok(run_pipeline(rows, q, lim, sf, dir, pg))
            }
        },
        QueryType::MultiSearch(fs, vs, lim, sf, dir, pg) => {
            if fs@.len() != vs@.len() || pg == 0 {
                Err(Error::InvalidQuery)
            } else {
                Ok(run_pipeline(rows, q, lim, sf, dir, pg))
            }
        },
    }
}

/// Keyed result pairs abstracted to `(identifier, entry)` rows.
pub open spec fn keyed_model<E: Entry, K: Key<E>>(s: Seq<(K, E)>) -> Seq<(int, E)> {
    s.map(|i: int, p: (K, E)| (p.0.id_spec(), p.1))
}

/// Every key in a result is marked valid.
pub open spec fn all_keys_valid<E: Entry, K: Key<E>>(s: Seq<(K, E)>) -> bool {
    forall|i: int| 0 <= i < s.len() ==> (#[trigger] s[i]).0.valid_spec()
}

/// The identifier a caller-supplied key carries, if one was supplied.
pub open spec fn opt_key_id<E: Entry, K: Key<E>>(k: Option<K>) -> Option<int> {
    match k {
        None => None,
        Some(kk) => Some(kk.id_spec()),
    }
}

/// A table of entries: the storage contract every backend implements.
///
/// A table models as a sequence of `(identifier, entry)` rows in insertion
/// order plus a monotonic identifier allocator; every operation's effect is
/// stated against that model, so structurally different backends are held
/// to identical observable behaviour.
pub trait Table<E: Entry>: Sized {
    type Key: Key<E>;

    /// The stored rows, in insertion order.
    spec fn rows(&self) -> Seq<(int, E)>;

    /// The identifier the next insertion will take.
    spec fn next_id(&self) -> int;

    /// The backend's internal invariant.
    spec fn inv(&self) -> bool;

    /// Whether the identifier allocator can still advance.
    spec fn can_insert(&self) -> bool;

    /// A valid table's rows are well-formed for its allocator.
    proof fn lemma_inv_wf(&self)
        ensures
            self.inv() ==> rows_wf(self.rows(), self.next_id()),
    ;

    /// Appends the entry under a fresh identifier and returns a valid key
    /// carrying it. Identifiers are never reused, even after removal.
    fn insert(&mut self, entry: E) -> (k: Self::Key)
        requires
            old(self).inv(),
            old(self).can_insert(),
        ensures
            final(self).inv(),
            final(self).rows() == old(self).rows().push((old(self).next_id(), entry)),
            final(self).next_id() == old(self).next_id() + 1,
            k.id_spec() == old(self).next_id(),
            k.valid_spec(),
    ;

    /// The entry the key resolves to; `None` when its record was never
    /// stored here or has been removed.
    fn lookup(&self, key: Self::Key) -> (r: Option<E>)
        requires
            self.inv(),
        ensures
            r == find_row(self.rows(), key.id_spec()),
    ;

    /// Replaces the record under the key; the key stays valid. Fails with
    /// `KeyNotFound`, leaving the table unchanged, when the key does not
    /// resolve.
    fn update(&mut self, key: Self::Key, entry: E) -> (r: Result<(), Error>)
        requires
            old(self).inv(),
        ensures
            final(self).inv(),
            final(self).next_id() == old(self).next_id(),
            match r {
                Ok(()) => contains_id(old(self).rows(), key.id_spec()) && final(self).rows()
                    == update_rows(old(self).rows(), key.id_spec(), entry),
                Err(e) => e == Error::KeyNotFound && !contains_id(
                    old(self).rows(),
                    key.id_spec(),
                ) && final(self).rows() == old(self).rows(),
            },
    ;

    /// Deletes the record under the key; the key becomes permanently
    /// invalid and its identifier is never issued again. Fails with
    /// `KeyNotFound`, leaving the table unchanged, when the key does not
    /// resolve.
    fn remove(&mut self, key: Self::Key) -> (r: Result<(), Error>)
        requires
            old(self).inv(),
        ensures
            final(self).inv(),
            final(self).next_id() == old(self).next_id(),
            match r {
                Ok(()) => contains_id(old(self).rows(), key.id_spec()) && final(self).rows()
                    == remove_rows(old(self).rows(), key.id_spec()),
                Err(e) => e == Error::KeyNotFound && !contains_id(
                    old(self).rows(),
                    key.id_spec(),
                ) && final(self).rows() == old(self).rows(),
            },
    ;

    /// Whether the key currently resolves to a record.
    fn contains(&self, key: Self::Key) -> (r: bool)
        requires
            self.inv(),
        ensures
            r == contains_id(self.rows(), key.id_spec()),
    ;

    /// All records whose value at `field_name` equals `field_value`, with
    /// their keys, in insertion order; an empty result is not an error.
    fn search(&self, field_name: <E as Entry>::FieldNames, field_value: Value) -> (r: Result<
        Vec<(Self::Key, E)>,
        Error,
    >)
        requires
            self.inv(),
        ensures
            match r {
                Ok(v) => keyed_model(v@) == filter_eq(self.rows(), field_name, field_value)
                    && all_keys_valid(v@),
                Err(_) => false,
            },
    ;

    /// Executes one query variant per [`query_spec`]: the key parameter
    /// is consulted only by `Lookup`.
    fn query(&self, q: QueryType<E>, key: Option<Self::Key>) -> (r: Result<
        Vec<(Self::Key, E)>,
        Error,
    >)
        requires
            self.inv(),
        ensures
            match r {
                Ok(v) => query_spec(self.rows(), q, opt_key_id(key)) == Ok::<
                    Seq<(int, E)>,
                    Error,
                >(keyed_model(v@)) && all_keys_valid(v@),
                Err(e) => query_spec(self.rows(), q, opt_key_id(key)) == Err::<
                    Seq<(int, E)>,
                    Error,
                >(e),
            },
    ;
}

} // verus!
