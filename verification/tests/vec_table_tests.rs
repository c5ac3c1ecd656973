use table_store::interface::{Error, QueryType, SortDirection, Table, Value};
use table_store::tests::{Department, DepartmentFields};
use table_store::vec_table::{VecTable, VecTableKey};

#[test]
fn test_vectable_key_partial_eq() {
    let key_1 = VecTableKey { id: 1 };
    let key_2 = VecTableKey { id: 1 };

    assert!(key_1 == key_2);
}

#[test]
fn lib_test_vectable() {
    let mut department_table: VecTable<Department> = VecTable::new();

    let ece_department = Department {
        name: "Electrical and Computer Engineering".to_string(),
        abreviation: "ECE".to_string(),
    };

    let ece_key = department_table.insert(ece_department);

    let ece_department_after = department_table.lookup(ece_key).unwrap();

    assert_eq!(
        ece_department_after.name,
        "Electrical and Computer Engineering".to_string()
    );
    assert_eq!(ece_department_after.abreviation, "ECE".to_string());
}

#[test]
fn vec_table_test_vectable() {
    let mut department_table: VecTable<Department> = VecTable::new();

    let ece_department = Department {
        name: "Electrical and Computer Engineering".to_string(),
        abreviation: "ECE".to_string(),
    };

    let ece_key = department_table.insert(ece_department);

    let ece_department_after = department_table.lookup(ece_key).unwrap();

    assert_eq!(
        ece_department_after.name,
        "Electrical and Computer Engineering".to_string()
    );
    assert_eq!(ece_department_after.abreviation, "ECE".to_string());
}

#[test]
fn test_search() {
    let mut department_table: VecTable<Department> = VecTable::new();

    let ece_key = department_table.insert(Department {
        name: "Electrical and Computer Engineering".to_string(),
        abreviation: "ECE".to_string(),
    });

    let _me_key = department_table.insert(Department {
        name: "Mechanical Engineering".to_string(),
        abreviation: "ME".to_string(),
    });

    let (found_key, _found_entry) = department_table
        .search(
            DepartmentFields::Abreviation,
            Value::String("ECE".to_string()),
        )
        .unwrap()
        .pop()
        .unwrap();

    assert_eq!(ece_key, found_key);
}

#[test]
fn test_vectable_contains() {
    let mut department_table: VecTable<Department> = VecTable::new();

    let ece_key = department_table.insert(Department {
        name: "Electrical and Computer Engineering".to_string(),
        abreviation: "ECE".to_string(),
    });

    let me_key = department_table.insert(Department {
        name: "Mechanical Engineering".to_string(),
        abreviation: "ME".to_string(),
    });

    assert!(department_table.contains(ece_key));
    assert!(department_table.contains(me_key));
}

#[test]
fn test_vectable_remove() {
    let mut department_table: VecTable<Department> = VecTable::new();

    let ece_key = department_table.insert(Department {
        name: "Electrical and Computer Engineering".to_string(),
        abreviation: "ECE".to_string(),
    });

    let me_key = department_table.insert(Department {
        name: "Mechanical Engineering".to_string(),
        abreviation: "ME".to_string(),
    });

    let result = department_table.remove(ece_key);

    assert_eq!(result, Ok(()));
    assert!(!department_table.contains(ece_key));
    assert!(department_table.contains(me_key));
}

#[test]
fn test_vectable_update() {
    let mut department_table: VecTable<Department> = VecTable::new();

    let ece_key = department_table.insert(Department {
        name: "Electrical and Computer Engineering".to_string(),
        abreviation: "ECE".to_string(),
    });

    department_table
        .update(
            ece_key,
            Department {
                name: "Electrical and Computer Engineering Department".to_string(),
                abreviation: "ECE".to_string(),
            },
        )
        .unwrap();

    let new_ece = department_table.lookup(ece_key).unwrap();

    assert_eq!(
        new_ece.name,
        "Electrical and Computer Engineering Department".to_string()
    );
    assert_eq!(new_ece.abreviation, "ECE".to_string());
}

#[test]
fn test_vectable_query_lookup() {
    let mut department_table: VecTable<Department> = VecTable::new();

    let ece_key = department_table.insert(Department {
        name: "Electrical and Computer Engineering".to_string(),
        abreviation: "ECE".to_string(),
    });

    let mut found: Vec<(VecTableKey, Department)> = department_table
        .query(QueryType::Lookup, Some(ece_key))
        .unwrap();

    assert_eq!(found.len(), 1);

    let (key, entry) = found.pop().unwrap();

    assert_eq!(key, ece_key);
    assert_eq!(
        entry.name,
        "Electrical and Computer Engineering".to_string()
    );
    assert_eq!(entry.abreviation, "ECE".to_string());
}

#[test]
fn test_vectable_query_getall_asc() {
    let mut department_table: VecTable<Department> = VecTable::new();

    let ece_deparment = Department {
        name: "Electrical and Computer Engineering".to_string(),
        abreviation: "ECE".to_string(),
    };

    let me_department = Department {
        name: "Mechanical Engineering".to_string(),
        abreviation: "ME".to_string(),
    };

    let bme_department = Department {
        name: "Biomedical Engineering".to_string(),
        abreviation: "BME".to_string(),
    };

    let ece_key = department_table.insert(ece_deparment);
    let me_key = department_table.insert(me_department);
    let bme_key = department_table.insert(bme_department);

    let mut found: Vec<(VecTableKey, Department)> = department_table
        .query(
            QueryType::GetAll(2, DepartmentFields::Abreviation, SortDirection::Asc, 1),
            None,
        )
        .unwrap();

    assert_eq!(found.len(), 2);

    let (found_bme_key, found_bme_entry) = found.remove(0);
    let (found_ece_key, found_ece_entry) = found.remove(0);

    assert_eq!(found_ece_key, ece_key);
    assert_eq!(found_bme_key, bme_key);

    assert_eq!(
        found_ece_entry.name,
        "Electrical and Computer Engineering".to_string()
    );
    assert_eq!(found_ece_entry.abreviation, "ECE".to_string());

    assert_eq!(found_bme_entry.name, "Biomedical Engineering".to_string());
    assert_eq!(found_bme_entry.abreviation, "BME".to_string());

    let mut found_page_2 = department_table
        .query(
            QueryType::GetAll(2, DepartmentFields::Abreviation, SortDirection::Asc, 2),
            None,
        )
        .unwrap();

    assert_eq!(found_page_2.len(), 1);

    let (found_me_key, found_me_entry) = found_page_2.remove(0);

    assert_eq!(found_me_key, me_key);
    assert_eq!(found_me_entry.name, "Mechanical Engineering".to_string());
    assert_eq!(found_me_entry.abreviation, "ME".to_string());
}

#[test]
fn test_vectable_query_getall_desc() {
    let mut department_table: VecTable<Department> = VecTable::new();

    let ece_deparment = Department {
        name: "Electrical and Computer Engineering".to_string(),
        abreviation: "ECE".to_string(),
    };

    let me_department = Department {
        name: "Mechanical Engineering".to_string(),
        abreviation: "ME".to_string(),
    };

    let bme_department = Department {
        name: "Biomedical Engineering".to_string(),
        abreviation: "BME".to_string(),
    };

    let ece_key = department_table.insert(ece_deparment);
    let me_key = department_table.insert(me_department);
    let bme_key = department_table.insert(bme_department);

    let mut found: Vec<(VecTableKey, Department)> = department_table
        .query(
            QueryType::GetAll(2, DepartmentFields::Abreviation, SortDirection::Desc, 1),
            None,
        )
        .unwrap();

    assert_eq!(found.len(), 2);

    let (found_me_key, found_me_entry) = found.remove(0);
    let (found_ece_key, found_ece_entry) = found.remove(0);

    assert_eq!(found_ece_key, ece_key);
    assert_eq!(
        found_ece_entry.name,
        "Electrical and Computer Engineering".to_string()
    );
    assert_eq!(found_ece_entry.abreviation, "ECE".to_string());

    assert_eq!(found_me_key, me_key);
    assert_eq!(found_me_entry.name, "Mechanical Engineering".to_string());
    assert_eq!(found_me_entry.abreviation, "ME".to_string());

    let mut found_page_2 = department_table
        .query(
            QueryType::GetAll(2, DepartmentFields::Abreviation, SortDirection::Desc, 2),
            None,
        )
        .unwrap();

    assert_eq!(found_page_2.len(), 1);

    let (found_bme_key, found_bme_entry) = found_page_2.remove(0);

    assert_eq!(found_bme_key, bme_key);

    assert_eq!(found_bme_entry.name, "Biomedical Engineering".to_string());
    assert_eq!(found_bme_entry.abreviation, "BME".to_string());

    // A page past the end of the result set is empty, not an error.
    let past_the_end = department_table
        .query(
            QueryType::GetAll(2, DepartmentFields::Abreviation, SortDirection::Desc, 3),
            None,
        )
        .unwrap();
    assert_eq!(past_the_end.len(), 0);
}

#[test]
fn lookup_of_unknown_key_is_none() {
    let mut department_table: VecTable<Department> = VecTable::new();
    let ece_key = department_table.insert(Department {
        name: "Electrical and Computer Engineering".to_string(),
        abreviation: "ECE".to_string(),
    });
    assert!(department_table.lookup(VecTableKey { id: ece_key.id + 1 }).is_none());
}

#[test]
fn query_lookup_without_key_is_invalid() {
    let department_table: VecTable<Department> = VecTable::new();
    let found = department_table.query(QueryType::Lookup, None);
    assert_eq!(found.unwrap_err(), Error::InvalidQuery);
}

#[test]
fn query_lookup_of_removed_key_is_key_not_found() {
    let mut department_table: VecTable<Department> = VecTable::new();
    let key = department_table.insert(Department {
        name: "Electrical and Computer Engineering".to_string(),
        abreviation: "ECE".to_string(),
    });
    department_table.remove(key).unwrap();
    let found = department_table.query(QueryType::Lookup, Some(key));
    assert_eq!(found.unwrap_err(), Error::KeyNotFound);
}

#[test]
fn update_of_unknown_key_is_key_not_found() {
    let mut department_table: VecTable<Department> = VecTable::new();
    let result = department_table.update(
        VecTableKey { id: 7 },
        Department {
            name: "Nowhere".to_string(),
            abreviation: "NW".to_string(),
        },
    );
    assert_eq!(result, Err(Error::KeyNotFound));
}

#[test]
fn page_size_is_clamped() {
    let mut department_table: VecTable<Department> = VecTable::new();
    for i in 0..3 {
        department_table.insert(Department {
            name: format!("Department {}", i),
            abreviation: format!("D{}", i),
        });
    }
    // A page size above the clamp still returns everything on page one...
    let found = department_table
        .query(
            QueryType::GetAll(60000, DepartmentFields::Abreviation, SortDirection::Asc, 1),
            None,
        )
        .unwrap();
    assert_eq!(found.len(), 3);
    // ...and page two starts after the clamped page size, past these rows.
    let found = department_table
        .query(
            QueryType::GetAll(60000, DepartmentFields::Abreviation, SortDirection::Asc, 2),
            None,
        )
        .unwrap();
    assert_eq!(found.len(), 0);
}

#[test]
fn page_zero_is_invalid() {
    let department_table: VecTable<Department> = VecTable::new();
    let found = department_table.query(
        QueryType::GetAll(2, DepartmentFields::Abreviation, SortDirection::Asc, 0),
        None,
    );
    assert_eq!(found.unwrap_err(), Error::InvalidQuery);
}

#[test]
fn sort_ties_keep_insertion_order() {
    let mut department_table: VecTable<Department> = VecTable::new();
    let first = department_table.insert(Department {
        name: "First Department of Engineering".to_string(),
        abreviation: "ENG".to_string(),
    });
    let second = department_table.insert(Department {
        name: "Second Department of Engineering".to_string(),
        abreviation: "ENG".to_string(),
    });
    for dir in [SortDirection::Asc, SortDirection::Desc] {
        let found = department_table
            .query(
                QueryType::GetAll(10, DepartmentFields::Abreviation, dir, 1),
                None,
            )
            .unwrap();
        assert_eq!(found.len(), 2);
        assert_eq!(found[0].0, first);
        assert_eq!(found[1].0, second);
    }
}
