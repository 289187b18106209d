use std::collections::HashSet;
use wincode_derive::names::{anon_ident, anon_ident_iter};
use wincode_derive::text::to_decimal;

#[test]
fn test_anon_ident_iter() {
    let names = anon_ident_iter(None, 53);
    assert_eq!(names[0], "a");
    assert_eq!(names[26], "a0");
    assert_eq!(names[27], "b0");
    assert_eq!(names[52], "a1");
    assert_eq!(anon_ident(None, 52), names[52]);
}

#[test]
fn anonymous_names_are_distinct_identifiers() {
    let names = anon_ident_iter(Some("variant_"), 1000);
    assert_eq!(names.len(), 1000);
    assert_eq!(names[0], "variant_a");
    assert_eq!(names[25], "variant_z");
    assert_eq!(names[26], "variant_a0");
    assert_eq!(names[999], "variant_l37");
    for name in &names {
        assert_eq!(syn::parse_str::<syn::Ident>(name).unwrap().to_string(), *name);
    }
    assert_eq!(names.iter().collect::<HashSet<_>>().len(), 1000);
}

#[test]
fn decimal_texts_have_no_leading_zeros() {
    assert_eq!(to_decimal(0), "0");
    assert_eq!(to_decimal(10), "10");
    assert_eq!(to_decimal(u128::MAX), u128::MAX.to_string());
}
