#[allow(unused_imports)]
use oql::runtime::SortAndStrip;
use oql::expand::expand_tokens;
use oql::lexer::tokenize;
use oql::token::{Delim, Tok};

/// The text of each token.
fn texts(toks: &[Tok]) -> Vec<String> {
    toks.iter()
        .map(|t| match t {
            Tok::Ident(s) => s.clone(),
            Tok::Punct(c, _) => c.to_string(),
            Tok::Lit(s) => s.clone(),
            Tok::Open(Delim::Paren) => "(".to_string(),
            Tok::Open(Delim::Bracket) => "[".to_string(),
            Tok::Open(Delim::Brace) => "{".to_string(),
            Tok::Open(Delim::Invisible) => "<".to_string(),
            Tok::Close(Delim::Paren) => ")".to_string(),
            Tok::Close(Delim::Bracket) => "]".to_string(),
            Tok::Close(Delim::Brace) => "}".to_string(),
            Tok::Close(Delim::Invisible) => ">".to_string(),
        })
        .collect()
}

/// The query expands to exactly the tokens of `code`.
fn check_expansion(query: &str, code: &str) {
    let out = expand_tokens(&tokenize(query)).expect("the query expands");
    assert_eq!(texts(&out).join(" "), texts(&tokenize(code)).join(" "));
}

#[test]
fn zip_pairs_rows_by_position() {
    check_expansion(
        r#"from u in users
zip p in profiles
select (u.id, p.name)"#,
        r#"{ #[allow(unused_imports)] use ::oql::runtime::SortAndStrip as _;  ::core::iter::IntoIterator::into_iter( users ) .zip(::core::iter::IntoIterator::into_iter( profiles )) .map(|( u , __oql_zip_item)| { let _ = &u; let p = __oql_zip_item; (u, p) })
.map(| (u, p) | { (u.id, p.name) }) }"#,
    );
    #[derive(Clone, Debug, PartialEq)]
    struct User {
        id: u32,
    }
    #[derive(Clone, Debug, PartialEq)]
    struct Profile {
        name: &'static str,
    }

    let users = vec![User { id: 1 }, User { id: 2 }];
    let profiles = vec![Profile { name: "Anna" }, Profile { name: "Bob" }];

    let out: Vec<(u32, &'static str)> = {   ::core::iter::IntoIterator::into_iter( users ) .zip(::core::iter::IntoIterator::into_iter( profiles )) .map(|( u , __oql_zip_item)| { let _ = &u; let p = __oql_zip_item; (u, p) })
.map(| (u, p) | { (u.id, p.name) }) }
    .collect();

    assert_eq!(out, vec![(1, "Anna"), (2, "Bob")]);
}

#[test]
fn zip_stops_when_right_is_shorter() {
    check_expansion(
        r#"from l in left
zip r in right
select (l, r)"#,
        r#"{ #[allow(unused_imports)] use ::oql::runtime::SortAndStrip as _;  ::core::iter::IntoIterator::into_iter( left ) .zip(::core::iter::IntoIterator::into_iter( right )) .map(|( l , __oql_zip_item)| { let _ = &l; let r = __oql_zip_item; (l, r) })
.map(| (l, r) | { (l, r) }) }"#,
    );
    let left = vec![1, 2, 3];
    let right = vec![10, 20];

    let out: Vec<_> = {   ::core::iter::IntoIterator::into_iter( left ) .zip(::core::iter::IntoIterator::into_iter( right )) .map(|( l , __oql_zip_item)| { let _ = &l; let r = __oql_zip_item; (l, r) })
.map(| (l, r) | { (l, r) }) }
    .collect();

    assert_eq!(out, vec![(1, 10), (2, 20)]);
}

#[test]
fn zip_stops_when_right_is_longer() {
    check_expansion(
        r#"from l in left
zip r in right
select (l, r)"#,
        r#"{ #[allow(unused_imports)] use ::oql::runtime::SortAndStrip as _;  ::core::iter::IntoIterator::into_iter( left ) .zip(::core::iter::IntoIterator::into_iter( right )) .map(|( l , __oql_zip_item)| { let _ = &l; let r = __oql_zip_item; (l, r) })
.map(| (l, r) | { (l, r) }) }"#,
    );
    let left = vec![1, 2];
    let right = vec![10, 20, 30];

    let out: Vec<_> = {   ::core::iter::IntoIterator::into_iter( left ) .zip(::core::iter::IntoIterator::into_iter( right )) .map(|( l , __oql_zip_item)| { let _ = &l; let r = __oql_zip_item; (l, r) })
.map(| (l, r) | { (l, r) }) }
    .collect();

    assert_eq!(out, vec![(1, 10), (2, 20)]);
}

#[test]
#[should_panic(expected = "oql zip sources have different lengths")]
fn zip_must_panics_when_right_is_shorter() {
    check_expansion(
        r#"from l in left
zip_must r in right
select (l, r)"#,
        r#"{ #[allow(unused_imports)] use ::oql::runtime::SortAndStrip as _;  ::core::iter::IntoIterator::into_iter( left ) .map(::core::option::Option::Some).chain(::core::iter::repeat_with(|| ::core::option::Option::None)).zip(::core::iter::Iterator::chain(::core::iter::Iterator::map(::core::iter::IntoIterator::into_iter( right ), ::core::option::Option::Some), ::core::iter::repeat_with(|| ::core::option::Option::None))).map_while(|(__oql_l, __oql_r)| match ::oql::runtime::zip_must_step(__oql_l, __oql_r) { ::core::result::Result::Ok(__oql_pair) => __oql_pair, ::core::result::Result::Err(__oql_e) => ::core::panic!("{}", __oql_e.message()), }) .map(|( l , __oql_zip_item)| { let _ = &l; let r = __oql_zip_item; (l, r) })
.map(| (l, r) | { (l, r) }) }"#,
    );
    let left = vec![1, 2, 3];
    let right = vec![10, 20];

    let _: Vec<_> = {   ::core::iter::IntoIterator::into_iter( left ) .map(::core::option::Option::Some).chain(::core::iter::repeat_with(|| ::core::option::Option::None)).zip(::core::iter::Iterator::chain(::core::iter::Iterator::map(::core::iter::IntoIterator::into_iter( right ), ::core::option::Option::Some), ::core::iter::repeat_with(|| ::core::option::Option::None))).map_while(|(__oql_l, __oql_r)| match ::oql::runtime::zip_must_step(__oql_l, __oql_r) { ::core::result::Result::Ok(__oql_pair) => __oql_pair, ::core::result::Result::Err(__oql_e) => core::panic!("{}", __oql_e.message()), }) .map(|( l , __oql_zip_item)| { let _ = &l; let r = __oql_zip_item; (l, r) })
.map(| (l, r) | { (l, r) }) }
    .collect();
}

#[test]
#[should_panic(expected = "oql zip sources have different lengths")]
fn zip_must_panics_when_right_is_longer() {
    check_expansion(
        r#"from l in left
zip_must r in right
select (l, r)"#,
        r#"{ #[allow(unused_imports)] use ::oql::runtime::SortAndStrip as _;  ::core::iter::IntoIterator::into_iter( left ) .map(::core::option::Option::Some).chain(::core::iter::repeat_with(|| ::core::option::Option::None)).zip(::core::iter::Iterator::chain(::core::iter::Iterator::map(::core::iter::IntoIterator::into_iter( right ), ::core::option::Option::Some), ::core::iter::repeat_with(|| ::core::option::Option::None))).map_while(|(__oql_l, __oql_r)| match ::oql::runtime::zip_must_step(__oql_l, __oql_r) { ::core::result::Result::Ok(__oql_pair) => __oql_pair, ::core::result::Result::Err(__oql_e) => ::core::panic!("{}", __oql_e.message()), }) .map(|( l , __oql_zip_item)| { let _ = &l; let r = __oql_zip_item; (l, r) })
.map(| (l, r) | { (l, r) }) }"#,
    );
    let left = vec![1, 2];
    let right = vec![10, 20, 30];

    let _: Vec<_> = {   ::core::iter::IntoIterator::into_iter( left ) .map(::core::option::Option::Some).chain(::core::iter::repeat_with(|| ::core::option::Option::None)).zip(::core::iter::Iterator::chain(::core::iter::Iterator::map(::core::iter::IntoIterator::into_iter( right ), ::core::option::Option::Some), ::core::iter::repeat_with(|| ::core::option::Option::None))).map_while(|(__oql_l, __oql_r)| match ::oql::runtime::zip_must_step(__oql_l, __oql_r) { ::core::result::Result::Ok(__oql_pair) => __oql_pair, ::core::result::Result::Err(__oql_e) => core::panic!("{}", __oql_e.message()), }) .map(|( l , __oql_zip_item)| { let _ = &l; let r = __oql_zip_item; (l, r) })
.map(| (l, r) | { (l, r) }) }
    .collect();
}

#[test]
fn zip_composes_with_where_and_let() {
    check_expansion(
        r#"from l in left
zip r in right
let sum = l + r
where sum > 20
select sum"#,
        r#"{ #[allow(unused_imports)] use ::oql::runtime::SortAndStrip as _;  ::core::iter::IntoIterator::into_iter( left ) .zip(::core::iter::IntoIterator::into_iter( right )) .map(|( l , __oql_zip_item)| { let _ = &l; let r = __oql_zip_item; (l, r) })
.filter_map(| (l, r) | { let sum = l + r; if sum > 20 { ::core::option::Option::Some(sum) } else { ::core::option::Option::None } })
.map(| sum | { sum }) }"#,
    );
    let left = vec![1, 2, 3];
    let right = vec![10, 20, 30];

    let out: Vec<_> = {   ::core::iter::IntoIterator::into_iter( left ) .zip(::core::iter::IntoIterator::into_iter( right )) .map(|( l , __oql_zip_item)| { let _ = &l; let r = __oql_zip_item; (l, r) })
.filter_map(| (l, r) | { let sum = l + r; if sum > 20 { ::core::option::Option::Some(sum) } else { ::core::option::Option::None } })
.map(| sum | { sum }) }
    .collect();

    assert_eq!(out, vec![22, 33]);
}
