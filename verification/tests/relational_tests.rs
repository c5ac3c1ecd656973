use table_store::interface::{Error, QueryType, SortDirection, Table, Value};
use table_store::relational::{
    decode_rows, ivalue_to_mystring, key_from_insert, plan_query, Command, MysqlTableKey,
};
use table_store::tests::{Department, DepartmentFields};
use table_store::vec_table::VecTable;

#[test]
fn plan_lookup_needs_a_key() {
    let planned: Result<Command<Department>, Error> = plan_query(QueryType::Lookup, None);
    assert!(matches!(planned, Err(Error::InvalidQuery)));

    let key = MysqlTableKey { id: 5, valid: true };
    let planned: Result<Command<Department>, Error> = plan_query(QueryType::Lookup, Some(key));
    assert!(matches!(planned, Ok(Command::SelectById(5))));
}

#[test]
fn plan_renders_clamp_offset_and_limit() {
    let planned: Result<Command<Department>, Error> = plan_query(
        QueryType::GetAll(2, DepartmentFields::Abreviation, SortDirection::Asc, 3),
        None,
    );
    match planned {
        Ok(Command::SelectWhere(_, sort_field, _, offset, limit)) => {
            assert_eq!(sort_field, DepartmentFields::Abreviation);
            assert_eq!(offset, 4); // page size 2, page 3, 1-indexed
            assert_eq!(limit, 2);
        }
        other => panic!("expected a SelectWhere command, got {:?}", other.err()),
    }

    // A page size above the clamp plans with the clamp.
    let planned: Result<Command<Department>, Error> = plan_query(
        QueryType::GetAll(60000, DepartmentFields::Abreviation, SortDirection::Asc, 2),
        None,
    );
    match planned {
        Ok(Command::SelectWhere(_, _, _, offset, limit)) => {
            assert_eq!(limit, 100);
            assert_eq!(offset, 100);
        }
        other => panic!("expected a SelectWhere command, got {:?}", other.err()),
    }
}

#[test]
fn plan_rejects_what_the_reference_rejects() {
    let planned: Result<Command<Department>, Error> = plan_query(
        QueryType::MultiSearch(
            vec![DepartmentFields::Name, DepartmentFields::Abreviation],
            vec![Value::String("only one".to_string())],
            10,
            DepartmentFields::Name,
            SortDirection::Asc,
            1,
        ),
        None,
    );
    assert!(matches!(planned, Err(Error::InvalidQuery)));

    let planned: Result<Command<Department>, Error> = plan_query(
        QueryType::GetAll(2, DepartmentFields::Abreviation, SortDirection::Asc, 0),
        None,
    );
    assert!(matches!(planned, Err(Error::InvalidQuery)));
}

#[test]
fn literals_are_quoted_and_escaped() {
    assert_eq!(
        ivalue_to_mystring(&Value::String("O'Brien".to_string())),
        "'O\\'Brien'".to_string()
    );
    assert_eq!(
        ivalue_to_mystring(&Value::String("plain".to_string())),
        "'plain'".to_string()
    );
    assert_eq!(ivalue_to_mystring(&Value::Integer(-7)), "-7".to_string());
    assert_eq!(ivalue_to_mystring(&Value::Boolean(true)), "true".to_string());
}

#[test]
fn key_from_insert_marks_failures_invalid() {
    let good = key_from_insert(true, 41);
    assert!(good.valid);
    assert_eq!(good.id, 41);

    let bad = key_from_insert(false, 41);
    assert!(!bad.valid);
}

#[test]
fn decode_rows_rebuilds_keyed_entries() {
    let rows = vec![
        vec![
            Value::Integer(7),
            Value::String("Electrical and Computer Engineering".to_string()),
            Value::String("ECE".to_string()),
        ],
        vec![
            Value::Integer(9),
            Value::String("Mechanical Engineering".to_string()),
            Value::String("ME".to_string()),
        ],
    ];
    let decoded: Vec<(MysqlTableKey, Department)> = decode_rows(&rows).unwrap();
    assert_eq!(decoded.len(), 2);
    assert_eq!(decoded[0].0, MysqlTableKey { id: 7, valid: true });
    assert_eq!(decoded[0].1.abreviation, "ECE");
    assert_eq!(decoded[1].0, MysqlTableKey { id: 9, valid: true });
    assert_eq!(decoded[1].1.name, "Mechanical Engineering");
}

#[test]
fn decode_rows_aborts_whole_on_a_malformed_row() {
    // A row whose identifier column is not an integer.
    let rows = vec![
        vec![
            Value::Integer(7),
            Value::String("Fine".to_string()),
            Value::String("F".to_string()),
        ],
        vec![
            Value::String("not an id".to_string()),
            Value::String("Broken".to_string()),
            Value::String("B".to_string()),
        ],
    ];
    let decoded: Result<Vec<(MysqlTableKey, Department)>, Error> = decode_rows(&rows);
    assert_eq!(decoded.unwrap_err(), Error::SchemaMismatch);

    // A row with the wrong arity for the entry type.
    let rows = vec![vec![Value::Integer(7), Value::String("only one field".to_string())]];
    let decoded: Result<Vec<(MysqlTableKey, Department)>, Error> = decode_rows(&rows);
    assert_eq!(decoded.unwrap_err(), Error::SchemaMismatch);

    // An empty row.
    let rows: Vec<Vec<Value>> = vec![vec![]];
    let decoded: Result<Vec<(MysqlTableKey, Department)>, Error> = decode_rows(&rows);
    assert_eq!(decoded.unwrap_err(), Error::SchemaMismatch);
}

/// What a faithful backend hands back for one department row: the
/// identifier column first, then the fields in declaration order.
fn backend_row(id: i32, name: &str, abbr: &str) -> Vec<Value> {
    vec![
        Value::Integer(id),
        Value::String(name.to_string()),
        Value::String(abbr.to_string()),
    ]
}

#[test]
fn backends_agree_on_a_paged_scan() {
    // The same dataset in the in-memory reference...
    let mut table: VecTable<Department> = VecTable::new();
    table.insert(Department {
        name: "Electrical and Computer Engineering".to_string(),
        abreviation: "ECE".to_string(),
    });
    table.insert(Department {
        name: "Mechanical Engineering".to_string(),
        abreviation: "ME".to_string(),
    });
    table.insert(Department {
        name: "Biomedical Engineering".to_string(),
        abreviation: "BME".to_string(),
    });

    let q = || QueryType::GetAll(2, DepartmentFields::Abreviation, SortDirection::Asc, 1);
    let reference = table.query(q(), None).unwrap();

    // ...and the planned command's result set, as a backend that orders by
    // the abbreviation (ties by identifier) and applies offset 0, limit 2
    // would return it over rows stored under identifiers 0, 1, 2.
    let planned: Command<Department> = plan_query(q(), None).unwrap();
    match planned {
        Command::SelectWhere(_, _, _, offset, limit) => {
            assert_eq!(offset, 0);
            assert_eq!(limit, 2);
        }
        _ => panic!("expected a SelectWhere command"),
    }
    let rowset = vec![
        backend_row(2, "Biomedical Engineering", "BME"),
        backend_row(0, "Electrical and Computer Engineering", "ECE"),
    ];
    let relational: Vec<(MysqlTableKey, Department)> = decode_rows(&rowset).unwrap();

    // Same ordered sequence, up to key representation.
    assert_eq!(reference.len(), relational.len());
    for ((vk, ve), (mk, me)) in reference.iter().zip(relational.iter()) {
        assert_eq!(vk.id as i32, mk.id);
        assert!(mk.valid);
        assert_eq!(ve.name, me.name);
        assert_eq!(ve.abreviation, me.abreviation);
    }
}
