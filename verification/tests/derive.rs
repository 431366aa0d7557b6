//! Field store plans from struct declarations.

use field::derive::{
    derive_field_data, plan_fields, plan_record, DeriveError, FoundField, InputRecord, Shape,
};

fn squeezed(s: &str) -> String {
    s.chars().filter(|c| !c.is_whitespace()).collect()
}

#[test]
fn a_struct_of_columns_becomes_a_plan() {
    let plan = derive_field_data(
        "struct State {
            /// Conserved state.
            #[forward] u: Vec<Duo>,
            #[reverse] #[zero] flux: Vec<f64>,
            backup: std::vec::Vec<[f64; 3]>,
            #[forward] #[other::reverse] mask: Vec<bool>,
        }",
    )
    .unwrap();
    assert_eq!(plan.name, "State");
    let names: Vec<&str> = plan.columns.iter().map(|c| c.ident.as_str()).collect();
    assert_eq!(names, vec!["u", "flux", "backup", "mask"]);
    let inner: Vec<String> = plan.columns.iter().map(|c| squeezed(&c.inner)).collect();
    assert_eq!(inner, vec!["Duo", "f64", "[f64;3]", "bool"]);
    assert_eq!(plan.forward, vec![0, 3]);
    assert_eq!(plan.reverse, vec![1]);
    assert_eq!(plan.zero, vec![1]);
    assert!(plan.columns[1].is_reverse && plan.columns[1].is_zero && !plan.columns[1].is_forward);
}

#[test]
fn a_struct_without_fields_has_no_columns() {
    let plan = derive_field_data("struct Empty {}").unwrap();
    assert!(plan.columns.is_empty());
    assert!(plan.forward.is_empty() && plan.reverse.is_empty() && plan.zero.is_empty());
}

#[test]
fn other_declarations_are_refused() {
    for text in ["struct T(Vec<f64>);", "struct U;"] {
        let e = derive_field_data(text).err().unwrap();
        assert!(matches!(e, DeriveError::NotNamed));
        assert_eq!(e.message(), "FieldData can only be derived for structs with named fields");
    }
    for text in ["enum E { A }", "union U { a: u8 }"] {
        let e = derive_field_data(text).err().unwrap();
        assert!(matches!(e, DeriveError::NotStruct));
        assert_eq!(e.message(), "FieldData can only be derived for structs, not enums or unions");
    }
}

#[test]
fn the_first_field_that_is_no_vec_is_named() {
    for ty in ["f64", "[f64; 3]", "Vec", "Vec<3>", "Option<f64>", "&'static Vec<f64>", "(Vec<f64>,)"] {
        let text = format!("struct S {{ a: Vec<f64>, b: {ty}, c: u8 }}");
        let e = derive_field_data(&text).err().unwrap();
        assert!(matches!(&e, DeriveError::NotVec(name) if name == "b"), "{ty}");
        assert!(e.message().starts_with("FieldData: field `b` must be a `Vec<C>` whose element"));
    }
}

#[test]
fn what_is_no_declaration_is_a_syntax_error() {
    for text in ["", "struct", "fn f() {}", "struct S { a: Vec<f64> "] {
        let e = derive_field_data(text).err().unwrap();
        match &e {
            DeriveError::Syntax(s) => assert_eq!(&e.message(), s),
            other => panic!("{other:?}"),
        }
    }
}

fn found(name: &str, attrs: &[Option<&str>], element: Option<&str>) -> FoundField {
    FoundField {
        name: name.to_string(),
        attrs: attrs.iter().map(|a| a.map(str::to_string)).collect(),
        element: element.map(str::to_string),
    }
}

#[test]
fn plans_can_be_made_of_found_fields() {
    let fields = vec![
        found("a", &[Some("zero"), None], Some("u8")),
        found("b", &[Some("doc"), Some("forward"), Some("reverse")], Some("u16")),
        found("c", &[], Some("u32")),
    ];
    let plan = plan_fields("T", Shape::Named, &fields).unwrap();
    assert_eq!(plan.name, "T");
    assert_eq!(plan.forward, vec![1]);
    assert_eq!(plan.reverse, vec![1]);
    assert_eq!(plan.zero, vec![0]);
    assert_eq!(plan.columns[1].inner, "u16");
    assert_eq!(plan.columns[2].ident, "c");
    assert!(matches!(plan_fields("T", Shape::Unnamed, &fields), Err(DeriveError::NotNamed)));
    assert!(matches!(plan_fields("T", Shape::NotStruct, &fields), Err(DeriveError::NotStruct)));
    let odd = vec![found("a", &[], Some("u8")), found("b", &[], None), found("c", &[], None)];
    match plan_fields("T", Shape::Named, &odd) {
        Err(DeriveError::NotVec(name)) => assert_eq!(name, "b"),
        _ => panic!("a field that is no Vec was planned"),
    }
}

/// The record of a struct declaration with named fields.
fn record(text: &str, shape: Shape) -> InputRecord {
    let input: syn::DeriveInput = syn::parse_str(text).unwrap();
    let fields = match input.data {
        syn::Data::Struct(s) => match s.fields {
            syn::Fields::Named(named) => named.named,
            _ => panic!("no named fields"),
        },
        _ => panic!("no struct"),
    };
    InputRecord { name: input.ident.to_string(), shape, fields }
}

#[test]
fn a_plan_keeps_the_element_types_of_its_record() {
    let text = "struct State { #[forward] u: Vec<[f64; 5]>, #[zero] #[reverse] k: Vec<u8> }";
    let plan = plan_record(&record(text, Shape::Named)).unwrap();
    assert_eq!(plan.name, "State");
    assert_eq!(plan.columns.len(), 2);
    assert_eq!(plan.columns[0].ident, "u");
    assert_eq!(squeezed(&plan.columns[0].inner), "[f64;5]");
    assert_eq!(plan.columns[1].ident, "k");
    assert_eq!(squeezed(&plan.columns[1].inner), "u8");
    assert_eq!((plan.forward, plan.reverse, plan.zero), (vec![0], vec![1], vec![1]));

    let found = plan_record(&record("struct Bad { a: Vec<f64>, b: f64 }", Shape::Named));
    assert!(matches!(found, Err(DeriveError::NotVec(_))));
    assert!(plan_record(&record("struct Odd { a: Vec<f64> }", Shape::NotStruct)).is_err());
}
