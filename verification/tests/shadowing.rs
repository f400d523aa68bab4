#[allow(unused_imports)]
use oql::runtime::SortAndStrip;
use oql::expand::expand_tokens;
use oql::lexer::tokenize;
use oql::token::{Delim, Tok};

/// The text of each token.
fn texts(toks: &[Tok]) -> Vec<String> {
    toks.iter()
        .map(|t| match t {
            Tok::Ident(s) => s.clone(),
            Tok::Punct(c, _) => c.to_string(),
            Tok::Lit(s) => s.clone(),
            Tok::Open(Delim::Paren) => "(".to_string(),
            Tok::Open(Delim::Bracket) => "[".to_string(),
            Tok::Open(Delim::Brace) => "{".to_string(),
            Tok::Open(Delim::Invisible) => "<".to_string(),
            Tok::Close(Delim::Paren) => ")".to_string(),
            Tok::Close(Delim::Bracket) => "]".to_string(),
            Tok::Close(Delim::Brace) => "}".to_string(),
            Tok::Close(Delim::Invisible) => ">".to_string(),
        })
        .collect()
}

/// The query expands to exactly the tokens of `code`.
fn check_expansion(query: &str, code: &str) {
    let out = expand_tokens(&tokenize(query)).expect("the query expands");
    assert_eq!(texts(&out).join(" "), texts(&tokenize(code)).join(" "));
}

#[test]
fn let_shadows_from_binding() {
    check_expansion(
        r#"from x in xs
let x = x * 10
select x"#,
        r#"{ #[allow(unused_imports)] use ::oql::runtime::SortAndStrip as _;  ::core::iter::IntoIterator::into_iter( xs ) .map(| x | { let x = x * 10; x }) }"#,
    );
    let xs = vec![1, 2, 3];
    let out: Vec<i32> = {   ::core::iter::IntoIterator::into_iter( xs ) .map(| x | { let x = x * 10; x }) }.collect();
    assert_eq!(out, vec![10, 20, 30]);
}

#[test]
fn let_shadows_earlier_let() {
    check_expansion(
        r#"from n in xs
let y = n * 2
let y = y + 100
select y"#,
        r#"{ #[allow(unused_imports)] use ::oql::runtime::SortAndStrip as _;  ::core::iter::IntoIterator::into_iter( xs ) .map(| n | { let y = n * 2; let y = y + 100; y }) }"#,
    );
    let xs = vec![1, 2, 3];
    let out: Vec<i32> = {   ::core::iter::IntoIterator::into_iter( xs ) .map(| n | { let y = n * 2; let y = y + 100; y }) }.collect();
    assert_eq!(out, vec![102, 104, 106]);
}

#[test]
fn shadowing_let_then_where() {
    check_expansion(
        r#"from x in xs
let x = x * 10
where x > 20
select x"#,
        r#"{ #[allow(unused_imports)] use ::oql::runtime::SortAndStrip as _;  ::core::iter::IntoIterator::into_iter( xs ) .filter_map(| x | { let x = x * 10; if x > 20 { ::core::option::Option::Some(x) } else { ::core::option::Option::None } })
.map(| x | { x }) }"#,
    );
    let xs = vec![1, 2, 3, 4, 5];
    let out: Vec<i32> = {   ::core::iter::IntoIterator::into_iter( xs ) .filter_map(| x | { let x = x * 10; if x > 20 { ::core::option::Option::Some(x) } else { ::core::option::Option::None } })
.map(| x | { x }) }.collect();
    assert_eq!(out, vec![30, 40, 50]);
}

#[test]
fn shadowing_let_then_orderby() {
    check_expansion(
        r#"from x in xs
let x = x * 10
orderby x desc
select x"#,
        r#"{ #[allow(unused_imports)] use ::oql::runtime::SortAndStrip as _;  ::core::iter::IntoIterator::into_iter( xs ) .map(| x | { let x = x * 10; let __oql_key = ::core::cmp::Reverse((&( x )).clone()); (__oql_key, x) }) .collect::<::std::vec::Vec<_>>() .__oql_sort_and_strip() .into_iter()
.map(| x | { x }) }"#,
    );
    let xs = vec![1, 2, 3];
    let out: Vec<i32> = {   ::core::iter::IntoIterator::into_iter( xs ) .map(| x | { let x = x * 10; let __oql_key = ::core::cmp::Reverse((&( x )).clone()); (__oql_key, x) }) .collect::<::std::vec::Vec<_>>() .__oql_sort_and_strip() .into_iter()
.map(| x | { x }) }.collect();
    assert_eq!(out, vec![30, 20, 10]);
}

#[test]
fn multiple_consecutive_shadows() {
    check_expansion(
        r#"from x in xs
let x = x + 1
let x = x * 2
let x = x - 1
select x"#,
        r#"{ #[allow(unused_imports)] use ::oql::runtime::SortAndStrip as _;  ::core::iter::IntoIterator::into_iter( xs ) .map(| x | { let x = x + 1; let x = x * 2; let x = x - 1; x }) }"#,
    );
    let xs = vec![1, 2, 3];
    let out: Vec<i32> = {   ::core::iter::IntoIterator::into_iter( xs ) .map(| x | { let x = x + 1; let x = x * 2; let x = x - 1; x }) }.collect();
    // (1+1)*2-1 = 3, (2+1)*2-1 = 5, (3+1)*2-1 = 7
    assert_eq!(out, vec![3, 5, 7]);
}

#[test]
fn non_shadowing_let_still_works() {
    check_expansion(
        r#"from n in xs
let doubled = n * 2
let tripled = n * 3
select (doubled, tripled)"#,
        r#"{ #[allow(unused_imports)] use ::oql::runtime::SortAndStrip as _;  ::core::iter::IntoIterator::into_iter( xs ) .map(| n | { let doubled = n * 2; let tripled = n * 3; (doubled, tripled) }) }"#,
    );
    // Regression check: a normal (non-shadowing) let must still carry its
    // name through the pipeline correctly.
    let xs = vec![1, 2, 3];
    let out: Vec<(i32, i32)> = {   ::core::iter::IntoIterator::into_iter( xs ) .map(| n | { let doubled = n * 2; let tripled = n * 3; (doubled, tripled) }) }.collect();
    assert_eq!(out, vec![(2, 3), (4, 6), (6, 9)]);
}
