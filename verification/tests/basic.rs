#[allow(unused_imports)]
use oql::runtime::SortAndStrip;
use oql::expand::expand_tokens;
use oql::lexer::tokenize;
use oql::token::{Delim, Tok};

/// The text of each token.
fn texts(toks: &[Tok]) -> Vec<String> {
    toks.iter()
        .map(|t| match t {
            Tok::Ident(s) => s.clone(),
            Tok::Punct(c, _) => c.to_string(),
            Tok::Lit(s) => s.clone(),
            Tok::Open(Delim::Paren) => "(".to_string(),
            Tok::Open(Delim::Bracket) => "[".to_string(),
            Tok::Open(Delim::Brace) => "{".to_string(),
            Tok::Open(Delim::Invisible) => "<".to_string(),
            Tok::Close(Delim::Paren) => ")".to_string(),
            Tok::Close(Delim::Bracket) => "]".to_string(),
            Tok::Close(Delim::Brace) => "}".to_string(),
            Tok::Close(Delim::Invisible) => ">".to_string(),
        })
        .collect()
}

/// The query expands to exactly the tokens of `code`.
fn check_expansion(query: &str, code: &str) {
    let out = expand_tokens(&tokenize(query)).expect("the query expands");
    assert_eq!(texts(&out).join(" "), texts(&tokenize(code)).join(" "));
}

#[test]
fn just_from_and_select() {
    check_expansion(
        r#"from x in xs
select x"#,
        r#"{ #[allow(unused_imports)] use ::oql::runtime::SortAndStrip as _;  ::core::iter::IntoIterator::into_iter( xs ) .map(| x | { x }) }"#,
    );
    let xs = vec![1, 2, 3];
    let out: Vec<i32> = {   ::core::iter::IntoIterator::into_iter( xs ) .map(| x | { x }) }
    .collect();
    assert_eq!(out, vec![1, 2, 3]);
}

#[test]
fn select_transforms() {
    check_expansion(
        r#"from x in xs
select x * x"#,
        r#"{ #[allow(unused_imports)] use ::oql::runtime::SortAndStrip as _;  ::core::iter::IntoIterator::into_iter( xs ) .map(| x | { x * x }) }"#,
    );
    let xs = vec![1, 2, 3];
    let out: Vec<i32> = {   ::core::iter::IntoIterator::into_iter( xs ) .map(| x | { x * x }) }
    .collect();
    assert_eq!(out, vec![1, 4, 9]);
}

#[test]
fn where_filters() {
    check_expansion(
        r#"from x in xs
where x % 2 == 0
select x"#,
        r#"{ #[allow(unused_imports)] use ::oql::runtime::SortAndStrip as _;  ::core::iter::IntoIterator::into_iter( xs ) .filter_map(| x | { if x % 2 == 0 { ::core::option::Option::Some(x) } else { ::core::option::Option::None } })
.map(| x | { x }) }"#,
    );
    let xs = vec![1, 2, 3, 4, 5, 6];
    let out: Vec<i32> = {   ::core::iter::IntoIterator::into_iter( xs ) .filter_map(| x | { if x % 2 == 0 { ::core::option::Option::Some(x) } else { ::core::option::Option::None } })
.map(| x | { x }) }
    .collect();
    assert_eq!(out, vec![2, 4, 6]);
}

#[test]
fn multiple_wheres_are_ands() {
    check_expansion(
        r#"from x in xs
where x >= 3
where x <= 7
where x % 2 == 1
select x"#,
        r#"{ #[allow(unused_imports)] use ::oql::runtime::SortAndStrip as _;  ::core::iter::IntoIterator::into_iter( xs ) .filter_map(| x | { if x >= 3 { ::core::option::Option::Some(x) } else { ::core::option::Option::None } })
.filter_map(| x | { if x <= 7 { ::core::option::Option::Some(x) } else { ::core::option::Option::None } })
.filter_map(| x | { if x % 2 == 1 { ::core::option::Option::Some(x) } else { ::core::option::Option::None } })
.map(| x | { x }) }"#,
    );
    let xs = vec![1, 2, 3, 4, 5, 6, 7, 8, 9, 10];
    let out: Vec<i32> = {   ::core::iter::IntoIterator::into_iter( xs ) .filter_map(| x | { if x >= 3 { ::core::option::Option::Some(x) } else { ::core::option::Option::None } })
.filter_map(| x | { if x <= 7 { ::core::option::Option::Some(x) } else { ::core::option::Option::None } })
.filter_map(| x | { if x % 2 == 1 { ::core::option::Option::Some(x) } else { ::core::option::Option::None } })
.map(| x | { x }) }
    .collect();
    assert_eq!(out, vec![3, 5, 7]);
}

#[test]
fn let_binding_is_visible_downstream() {
    check_expansion(
        r#"from x in xs
let doubled = x * 2
where doubled > 4
select doubled"#,
        r#"{ #[allow(unused_imports)] use ::oql::runtime::SortAndStrip as _;  ::core::iter::IntoIterator::into_iter( xs ) .filter_map(| x | { let doubled = x * 2; if doubled > 4 { ::core::option::Option::Some(doubled) } else { ::core::option::Option::None } })
.map(| doubled | { doubled }) }"#,
    );
    let xs = vec![1, 2, 3, 4];
    let out: Vec<i32> = {   ::core::iter::IntoIterator::into_iter( xs ) .filter_map(| x | { let doubled = x * 2; if doubled > 4 { ::core::option::Option::Some(doubled) } else { ::core::option::Option::None } })
.map(| doubled | { doubled }) }
    .collect();
    assert_eq!(out, vec![6, 8]);
}

#[test]
fn two_let_bindings_compose() {
    check_expansion(
        r#"from x in xs
let a = x * 2
let b = a + 10
select b"#,
        r#"{ #[allow(unused_imports)] use ::oql::runtime::SortAndStrip as _;  ::core::iter::IntoIterator::into_iter( xs ) .map(| x | { let a = x * 2; let b = a + 10; b }) }"#,
    );
    let xs = vec![1, 2, 3];
    let out: Vec<i32> = {   ::core::iter::IntoIterator::into_iter( xs ) .map(| x | { let a = x * 2; let b = a + 10; b }) }
    .collect();
    assert_eq!(out, vec![12, 14, 16]);
}

#[test]
fn orderby_ascending() {
    check_expansion(
        r#"from x in xs
orderby x
select x"#,
        r#"{ #[allow(unused_imports)] use ::oql::runtime::SortAndStrip as _;  ::core::iter::IntoIterator::into_iter( xs ) .map(| x | { let __oql_key = (&( x )).clone(); (__oql_key, x) }) .collect::<::std::vec::Vec<_>>() .__oql_sort_and_strip() .into_iter()
.map(| x | { x }) }"#,
    );
    let xs = vec![3, 1, 4, 1, 5, 9, 2, 6];
    let out: Vec<i32> = {   ::core::iter::IntoIterator::into_iter( xs ) .map(| x | { let __oql_key = (&( x )).clone(); (__oql_key, x) }) .collect::<::std::vec::Vec<_>>() .__oql_sort_and_strip() .into_iter()
.map(| x | { x }) }
    .collect();
    assert_eq!(out, vec![1, 1, 2, 3, 4, 5, 6, 9]);
}

#[test]
fn orderby_descending() {
    check_expansion(
        r#"from x in xs
orderby x desc
select x"#,
        r#"{ #[allow(unused_imports)] use ::oql::runtime::SortAndStrip as _;  ::core::iter::IntoIterator::into_iter( xs ) .map(| x | { let __oql_key = ::core::cmp::Reverse((&( x )).clone()); (__oql_key, x) }) .collect::<::std::vec::Vec<_>>() .__oql_sort_and_strip() .into_iter()
.map(| x | { x }) }"#,
    );
    let xs = vec![3, 1, 4, 1, 5, 9, 2, 6];
    let out: Vec<i32> = {   ::core::iter::IntoIterator::into_iter( xs ) .map(| x | { let __oql_key = ::core::cmp::Reverse((&( x )).clone()); (__oql_key, x) }) .collect::<::std::vec::Vec<_>>() .__oql_sort_and_strip() .into_iter()
.map(| x | { x }) }
    .collect();
    assert_eq!(out, vec![9, 6, 5, 4, 3, 2, 1, 1]);
}

#[test]
fn orderby_with_filter() {
    check_expansion(
        r#"from x in xs
where x > 2
orderby x desc
select x"#,
        r#"{ #[allow(unused_imports)] use ::oql::runtime::SortAndStrip as _;  ::core::iter::IntoIterator::into_iter( xs ) .filter_map(| x | { if x > 2 { ::core::option::Option::Some(x) } else { ::core::option::Option::None } })
.map(| x | { let __oql_key = ::core::cmp::Reverse((&( x )).clone()); (__oql_key, x) }) .collect::<::std::vec::Vec<_>>() .__oql_sort_and_strip() .into_iter()
.map(| x | { x }) }"#,
    );
    let xs = vec![5, 2, 8, 1, 9, 3];
    let out: Vec<i32> = {   ::core::iter::IntoIterator::into_iter( xs ) .filter_map(| x | { if x > 2 { ::core::option::Option::Some(x) } else { ::core::option::Option::None } })
.map(| x | { let __oql_key = ::core::cmp::Reverse((&( x )).clone()); (__oql_key, x) }) .collect::<::std::vec::Vec<_>>() .__oql_sort_and_strip() .into_iter()
.map(| x | { x }) }
    .collect();
    assert_eq!(out, vec![9, 8, 5, 3]);
}

#[test]
fn composite_orderby() {
    check_expansion(
        r#"from pair in items
let g = pair.0
let v = pair.1
orderby g
orderby v desc
select (g, v)"#,
        r#"{ #[allow(unused_imports)] use ::oql::runtime::SortAndStrip as _;  ::core::iter::IntoIterator::into_iter( items ) .map(| pair | { let g = pair.0; let v = pair.1; let __oql_key = ((&( g )).clone(), ::core::cmp::Reverse((&( v )).clone())); (__oql_key, (g, v)) }) .collect::<::std::vec::Vec<_>>() .__oql_sort_and_strip() .into_iter()
.map(| (g, v) | { (g, v) }) }"#,
    );
    // Two keys: primary ascending by group, secondary descending by value.
    let items = vec![(1, 10), (2, 5), (1, 30), (2, 20), (1, 20)];
    let out: Vec<(i32, i32)> = {   ::core::iter::IntoIterator::into_iter( items ) .map(| pair | { let g = pair.0; let v = pair.1; let __oql_key = ((&( g )).clone(), ::core::cmp::Reverse((&( v )).clone())); (__oql_key, (g, v)) }) .collect::<::std::vec::Vec<_>>() .__oql_sort_and_strip() .into_iter()
.map(| (g, v) | { (g, v) }) }
    .collect();
    assert_eq!(out, vec![(1, 30), (1, 20), (1, 10), (2, 20), (2, 5)]);
}

#[test]
fn struct_fields() {
    check_expansion(
        r#"from u in users
where u.age >= 18
orderby u.age
select (u.name, u.age)"#,
        r#"{ #[allow(unused_imports)] use ::oql::runtime::SortAndStrip as _;  ::core::iter::IntoIterator::into_iter( users ) .filter_map(| u | { if u.age >= 18 { ::core::option::Option::Some(u) } else { ::core::option::Option::None } })
.map(| u | { let __oql_key = (&( u.age )).clone(); (__oql_key, u) }) .collect::<::std::vec::Vec<_>>() .__oql_sort_and_strip() .into_iter()
.map(| u | { (u.name, u.age) }) }"#,
    );
    #[derive(Clone)]
    struct User {
        name: &'static str,
        age: u32,
    }
    let users = vec![
        User {
            name: "Anna",
            age: 30,
        },
        User {
            name: "Ben",
            age: 17,
        },
        User {
            name: "Carla",
            age: 42,
        },
    ];
    let adults: Vec<(&'static str, u32)> = {   ::core::iter::IntoIterator::into_iter( users ) .filter_map(| u | { if u.age >= 18 { ::core::option::Option::Some(u) } else { ::core::option::Option::None } })
.map(| u | { let __oql_key = (&( u.age )).clone(); (__oql_key, u) }) .collect::<::std::vec::Vec<_>>() .__oql_sort_and_strip() .into_iter()
.map(| u | { (u.name, u.age) }) }
    .collect();
    assert_eq!(adults, vec![("Anna", 30), ("Carla", 42)]);
}

#[test]
fn orderby_on_string_key_needs_no_clone() {
    check_expansion(
        r#"from item in items
orderby item.0
select item"#,
        r#"{ #[allow(unused_imports)] use ::oql::runtime::SortAndStrip as _;  ::core::iter::IntoIterator::into_iter( items ) .map(| item | { let __oql_key = (&( item.0 )).clone(); (__oql_key, item) }) .collect::<::std::vec::Vec<_>>() .__oql_sort_and_strip() .into_iter()
.map(| item | { item }) }"#,
    );
    // Sorting by a String key must not force the user to write `.clone()`.
    // The macro handles owning internally.
    let items = vec![
        ("charlie".to_string(), 3),
        ("alice".to_string(), 1),
        ("bob".to_string(), 2),
    ];
    let out: Vec<(String, i32)> = {   ::core::iter::IntoIterator::into_iter( items ) .map(| item | { let __oql_key = (&( item.0 )).clone(); (__oql_key, item) }) .collect::<::std::vec::Vec<_>>() .__oql_sort_and_strip() .into_iter()
.map(| item | { item }) }
    .collect();
    assert_eq!(
        out,
        vec![
            ("alice".to_string(), 1),
            ("bob".to_string(), 2),
            ("charlie".to_string(), 3),
        ]
    );
}

#[test]
fn where_on_string_needs_no_deref() {
    check_expansion(
        r#"from n in names
where n.len() > 3
select n"#,
        r#"{ #[allow(unused_imports)] use ::oql::runtime::SortAndStrip as _;  ::core::iter::IntoIterator::into_iter( names ) .filter_map(| n | { if n.len() > 3 { ::core::option::Option::Some(n) } else { ::core::option::Option::None } })
.map(| n | { n }) }"#,
    );
    // `where` conditions on non-Copy types work without `*` or `&` gymnastics.
    let names = vec!["anna".to_string(), "ben".to_string(), "clara".to_string()];
    let out: Vec<String> = {   ::core::iter::IntoIterator::into_iter( names ) .filter_map(| n | { if n.len() > 3 { ::core::option::Option::Some(n) } else { ::core::option::Option::None } })
.map(| n | { n }) }
    .collect();
    assert_eq!(out, vec!["anna".to_string(), "clara".to_string()]);
}

#[test]
fn chains_into_standard_iter_methods() {
    check_expansion(
        r#"from x in xs
where x > 2
select x"#,
        r#"{ #[allow(unused_imports)] use ::oql::runtime::SortAndStrip as _;  ::core::iter::IntoIterator::into_iter( xs ) .filter_map(| x | { if x > 2 { ::core::option::Option::Some(x) } else { ::core::option::Option::None } })
.map(| x | { x }) }"#,
    );
    let xs = vec![1, 2, 3, 4, 5];
    let sum: i32 = {   ::core::iter::IntoIterator::into_iter( xs ) .filter_map(| x | { if x > 2 { ::core::option::Option::Some(x) } else { ::core::option::Option::None } })
.map(| x | { x }) }
    .sum();
    assert_eq!(sum, 12);
}
