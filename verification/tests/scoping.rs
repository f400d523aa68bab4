#[allow(unused_imports)]
use oql::runtime::SortAndStrip;
use oql::expand::expand_tokens;
use oql::lexer::tokenize;
use oql::token::{Delim, Tok};

/// The text of each token.
fn texts(toks: &[Tok]) -> Vec<String> {
    toks.iter()
        .map(|t| match t {
            Tok::Ident(s) => s.clone(),
            Tok::Punct(c, _) => c.to_string(),
            Tok::Lit(s) => s.clone(),
            Tok::Open(Delim::Paren) => "(".to_string(),
            Tok::Open(Delim::Bracket) => "[".to_string(),
            Tok::Open(Delim::Brace) => "{".to_string(),
            Tok::Open(Delim::Invisible) => "<".to_string(),
            Tok::Close(Delim::Paren) => ")".to_string(),
            Tok::Close(Delim::Bracket) => "]".to_string(),
            Tok::Close(Delim::Brace) => "}".to_string(),
            Tok::Close(Delim::Invisible) => ">".to_string(),
        })
        .collect()
}

/// The query expands to exactly the tokens of `code`.
fn check_expansion(query: &str, code: &str) {
    let out = expand_tokens(&tokenize(query)).expect("the query expands");
    assert_eq!(texts(&out).join(" "), texts(&tokenize(code)).join(" "));
}

fn nested_run() -> Vec<i32> {
    check_expansion(
        r#"from x in xs
where x > 1
select x * 10"#,
        r#"{ #[allow(unused_imports)] use ::oql::runtime::SortAndStrip as _;  ::core::iter::IntoIterator::into_iter( xs ) .filter_map(| x | { if x > 1 { ::core::option::Option::Some(x) } else { ::core::option::Option::None } })
.map(| x | { x * 10 }) }"#,
    );
    let xs = vec![1, 2, 3];
    {   ::core::iter::IntoIterator::into_iter( xs ) .filter_map(| x | { if x > 1 { ::core::option::Option::Some(x) } else { ::core::option::Option::None } })
.map(| x | { x * 10 }) }
    .collect()
}

fn doubly_nested_run() -> Vec<(i32, i32)> {
    check_expansion(
        r#"from item in xs
orderby item.0 desc
select (item.0, item.0 * item.0)"#,
        r#"{ #[allow(unused_imports)] use ::oql::runtime::SortAndStrip as _;  ::core::iter::IntoIterator::into_iter( xs ) .map(| item | { let __oql_key = ::core::cmp::Reverse((&( item.0 )).clone()); (__oql_key, item) }) .collect::<::std::vec::Vec<_>>() .__oql_sort_and_strip() .into_iter()
.map(| item | { (item.0, item.0 * item.0) }) }"#,
    );
    let xs = vec![(1, "a"), (2, "b"), (3, "c")];
    {   ::core::iter::IntoIterator::into_iter( xs ) .map(| item | { let __oql_key = ::core::cmp::Reverse((&( item.0 )).clone()); (__oql_key, item) }) .collect::<::std::vec::Vec<_>>() .__oql_sort_and_strip() .into_iter()
.map(| item | { (item.0, item.0 * item.0) }) }
    .collect()
}

#[test]
fn macro_works_inside_nested_module() {
    assert_eq!(nested_run(), vec![20, 30]);
}

#[test]
fn macro_works_inside_deeply_nested_module() {
    assert_eq!(doubly_nested_run(), vec![(3, 9), (2, 4), (1, 1)]);
}

#[test]
fn macro_works_inside_closure() {
    check_expansion(
        r#"from x in data
where x % 2 == 0
select x"#,
        r#"{ #[allow(unused_imports)] use ::oql::runtime::SortAndStrip as _;  ::core::iter::IntoIterator::into_iter( data ) .filter_map(| x | { if x % 2 == 0 { ::core::option::Option::Some(x) } else { ::core::option::Option::None } })
.map(| x | { x }) }"#,
    );
    let query = |data: Vec<i32>| -> Vec<i32> {
        {   ::core::iter::IntoIterator::into_iter( data ) .filter_map(| x | { if x % 2 == 0 { ::core::option::Option::Some(x) } else { ::core::option::Option::None } })
.map(| x | { x }) }
        .collect()
    };
    assert_eq!(query(vec![1, 2, 3, 4, 5]), vec![2, 4]);
}

#[test]
fn two_independent_queries_in_one_function() {
    check_expansion(
        r#"from x in xs
select x"#,
        r#"{ #[allow(unused_imports)] use ::oql::runtime::SortAndStrip as _;  ::core::iter::IntoIterator::into_iter( xs ) .map(| x | { x }) }"#,
    );
    check_expansion(
        r#"from y in ys
select y"#,
        r#"{ #[allow(unused_imports)] use ::oql::runtime::SortAndStrip as _;  ::core::iter::IntoIterator::into_iter( ys ) .map(| y | { y }) }"#,
    );
    // Two expansions in the same scope must not collide on any generated
    // identifier (e.g. the `__oql_join_map_N` names).
    let xs = vec![1, 2, 3];
    let ys = vec![4, 5, 6];
    let sum_x: i32 = {   ::core::iter::IntoIterator::into_iter( xs ) .map(| x | { x }) }
    .sum();
    let sum_y: i32 = {   ::core::iter::IntoIterator::into_iter( ys ) .map(| y | { y }) }
    .sum();
    assert_eq!(sum_x, 6);
    assert_eq!(sum_y, 15);
}
