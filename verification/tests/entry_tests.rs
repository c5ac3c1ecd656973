use std::str::FromStr;

use table_store::interface::{Entry, Error, FieldName, Value};
use table_store::tests::{Department, DepartmentFields, User, UserFields};

#[test]
fn test_departmentfields_from_str() {
    let name_field = DepartmentFields::from_str("Name");
    assert_eq!(name_field, Ok(DepartmentFields::Name));

    let abreviation_field = DepartmentFields::from_str("Abreviation");
    assert_eq!(abreviation_field, Ok(DepartmentFields::Abreviation));
}

#[test]
fn test_department_from_fields() {
    let fields = [
        Value::String("Electrical and Computer Engineering".to_string()),
        Value::String("ECE".to_string()),
    ];

    let department = Department::from_fields(&fields).unwrap();

    assert_eq!(
        department.name,
        "Electrical and Computer Engineering".to_string()
    );
    assert_eq!(department.abreviation, "ECE".to_string());
}

#[test]
fn test_department_get_field_names() {
    let field_names = Department::get_field_names();

    assert_eq!(field_names[0], DepartmentFields::Name);
    assert_eq!(field_names[1], DepartmentFields::Abreviation);
    assert_eq!(field_names.len(), 2);
}

#[test]
fn test_department_get_fields() {
    let department = Department {
        name: "Electrical and Computer Engineering".to_string(),
        abreviation: "ECE".to_string(),
    };

    let fields = department.get_fields();

    assert_eq!(
        fields[0],
        Value::String("Electrical and Computer Engineering".to_string())
    );
    assert_eq!(fields[1], Value::String("ECE".to_string()));
    assert_eq!(fields.len(), 2);
}

#[test]
fn test_department_get_field() {
    let department = Department {
        name: "Electrical and Computer Engineering".to_string(),
        abreviation: "ECE".to_string(),
    };

    let first_name = department.get_field(DepartmentFields::Name);

    assert_eq!(
        first_name,
        Some(Value::String(
            "Electrical and Computer Engineering".to_string()
        ))
    );
}

#[test]
fn test_userfields_from_str() {
    let firstname_field = UserFields::from_str("First Name");
    assert_eq!(firstname_field, Ok(UserFields::FirstName));

    let lastname_field = UserFields::from_str("Last Name");
    assert_eq!(lastname_field, Ok(UserFields::LastName));
}

#[test]
fn test_user_from_fields() {
    let fields = [
        Value::String("Tim".to_string()),
        Value::String("Hollabaugh".to_string()),
    ];

    let user = User::from_fields(&fields).unwrap();

    assert_eq!(user.first_name, "Tim".to_string());
    assert_eq!(user.last_name, "Hollabaugh".to_string());
}

#[test]
fn test_user_get_field_names() {
    let field_names = User::get_field_names();

    assert_eq!(field_names[0], UserFields::FirstName);
    assert_eq!(field_names[1], UserFields::LastName);
    assert_eq!(field_names.len(), 2);
}

#[test]
fn test_user_get_fields() {
    let user = User {
        first_name: "Tim".to_string(),
        last_name: "Hollabaugh".to_string(),
    };

    let fields = user.get_fields();

    assert_eq!(fields[0], Value::String("Tim".to_string()));
    assert_eq!(fields[1], Value::String("Hollabaugh".to_string()));
    assert_eq!(fields.len(), 2);
}

#[test]
fn test_user_get_field() {
    let user = User {
        first_name: "Tim".to_string(),
        last_name: "Hollabaugh".to_string(),
    };

    let first_name = user.get_field(UserFields::FirstName);

    assert_eq!(first_name, Some(Value::String("Tim".to_string())));
}

#[test]
fn fields_round_trip_through_from_fields() {
    // An entry flattened to its value sequence rebuilds to an equal entry.
    let department = Department {
        name: "Biomedical Engineering".to_string(),
        abreviation: "BME".to_string(),
    };
    let rebuilt = Department::from_fields(&department.get_fields()).unwrap();
    assert_eq!(rebuilt.name, department.name);
    assert_eq!(rebuilt.abreviation, department.abreviation);

    let user = User {
        first_name: "Ada".to_string(),
        last_name: "Lovelace".to_string(),
    };
    let rebuilt = User::from_fields(&user.get_fields()).unwrap();
    assert_eq!(rebuilt.first_name, user.first_name);
    assert_eq!(rebuilt.last_name, user.last_name);
}

#[test]
fn from_fields_rejects_wrong_arity() {
    let too_few = [Value::String("only one".to_string())];
    assert!(matches!(
        Department::from_fields(&too_few),
        Err(Error::SchemaMismatch)
    ));

    let too_many = [
        Value::String("a".to_string()),
        Value::String("b".to_string()),
        Value::String("c".to_string()),
    ];
    assert!(matches!(
        Department::from_fields(&too_many),
        Err(Error::SchemaMismatch)
    ));
}

#[test]
fn from_fields_rejects_wrong_variant() {
    let wrong = [Value::Integer(1), Value::String("ECE".to_string())];
    assert!(matches!(
        Department::from_fields(&wrong),
        Err(Error::SchemaMismatch)
    ));
}

#[test]
fn field_name_text_round_trips() {
    for field in Department::get_field_names() {
        let parsed = DepartmentFields::from_text(&field.to_text());
        assert_eq!(parsed, Ok(field));
    }
    for field in User::get_field_names() {
        let parsed = UserFields::from_text(&field.to_text());
        assert_eq!(parsed, Ok(field));
    }
}

#[test]
fn field_name_unknown_text_is_rejected() {
    assert_eq!(
        DepartmentFields::from_text("NoSuchField"),
        Err(Error::FieldNotMatched)
    );
    assert_eq!(
        <DepartmentFields as FromStr>::from_str("NoSuchField"),
        Err("Field does not exist".to_string())
    );
}
