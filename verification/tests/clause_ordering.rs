#[allow(unused_imports)]
use oql::runtime::SortAndStrip;
use oql::expand::expand_tokens;
use oql::lexer::tokenize;
use oql::token::{Delim, Tok};

/// The text of each token.
fn texts(toks: &[Tok]) -> Vec<String> {
    toks.iter()
        .map(|t| match t {
            Tok::Ident(s) => s.clone(),
            Tok::Punct(c, _) => c.to_string(),
            Tok::Lit(s) => s.clone(),
            Tok::Open(Delim::Paren) => "(".to_string(),
            Tok::Open(Delim::Bracket) => "[".to_string(),
            Tok::Open(Delim::Brace) => "{".to_string(),
            Tok::Open(Delim::Invisible) => "<".to_string(),
            Tok::Close(Delim::Paren) => ")".to_string(),
            Tok::Close(Delim::Bracket) => "]".to_string(),
            Tok::Close(Delim::Brace) => "}".to_string(),
            Tok::Close(Delim::Invisible) => ">".to_string(),
        })
        .collect()
}

/// The query expands to exactly the tokens of `code`.
fn check_expansion(query: &str, code: &str) {
    let out = expand_tokens(&tokenize(query)).expect("the query expands");
    assert_eq!(texts(&out).join(" "), texts(&tokenize(code)).join(" "));
}

#[test]
fn where_before_let() {
    check_expansion(
        r#"from x in xs
where x > 2
let doubled = x * 2
select doubled"#,
        r#"{ #[allow(unused_imports)] use ::oql::runtime::SortAndStrip as _;  ::core::iter::IntoIterator::into_iter( xs ) .filter_map(| x | { if x > 2 { ::core::option::Option::Some(x) } else { ::core::option::Option::None } })
.map(| x | { let doubled = x * 2; doubled }) }"#,
    );
    let xs = vec![1, 2, 3, 4, 5];
    let out: Vec<i32> = {   ::core::iter::IntoIterator::into_iter( xs ) .filter_map(| x | { if x > 2 { ::core::option::Option::Some(x) } else { ::core::option::Option::None } })
.map(| x | { let doubled = x * 2; doubled }) }
    .collect();
    assert_eq!(out, vec![6, 8, 10]);
}

#[test]
fn let_before_where() {
    check_expansion(
        r#"from x in xs
let doubled = x * 2
where doubled > 4
select doubled"#,
        r#"{ #[allow(unused_imports)] use ::oql::runtime::SortAndStrip as _;  ::core::iter::IntoIterator::into_iter( xs ) .filter_map(| x | { let doubled = x * 2; if doubled > 4 { ::core::option::Option::Some(doubled) } else { ::core::option::Option::None } })
.map(| doubled | { doubled }) }"#,
    );
    let xs = vec![1, 2, 3, 4, 5];
    let out: Vec<i32> = {   ::core::iter::IntoIterator::into_iter( xs ) .filter_map(| x | { let doubled = x * 2; if doubled > 4 { ::core::option::Option::Some(doubled) } else { ::core::option::Option::None } })
.map(| doubled | { doubled }) }
    .collect();
    assert_eq!(out, vec![6, 8, 10]);
}

#[test]
fn orderby_before_where_filters_after_sort() {
    check_expansion(
        r#"from x in xs
orderby x
where x > 2
select x"#,
        r#"{ #[allow(unused_imports)] use ::oql::runtime::SortAndStrip as _;  ::core::iter::IntoIterator::into_iter( xs ) .map(| x | { let __oql_key = (&( x )).clone(); (__oql_key, x) }) .collect::<::std::vec::Vec<_>>() .__oql_sort_and_strip() .into_iter()
.filter_map(| x | { if x > 2 { ::core::option::Option::Some(x) } else { ::core::option::Option::None } })
.map(| x | { x }) }"#,
    );
    // Order all items, then filter. Not the most efficient ordering,
    // but the user's choice must be honoured.
    let xs = vec![5, 1, 3, 2, 4];
    let out: Vec<i32> = {   ::core::iter::IntoIterator::into_iter( xs ) .map(| x | { let __oql_key = (&( x )).clone(); (__oql_key, x) }) .collect::<::std::vec::Vec<_>>() .__oql_sort_and_strip() .into_iter()
.filter_map(| x | { if x > 2 { ::core::option::Option::Some(x) } else { ::core::option::Option::None } })
.map(| x | { x }) }
    .collect();
    assert_eq!(out, vec![3, 4, 5]);
}

#[test]
fn where_before_orderby_filters_before_sort() {
    check_expansion(
        r#"from x in xs
where x > 2
orderby x
select x"#,
        r#"{ #[allow(unused_imports)] use ::oql::runtime::SortAndStrip as _;  ::core::iter::IntoIterator::into_iter( xs ) .filter_map(| x | { if x > 2 { ::core::option::Option::Some(x) } else { ::core::option::Option::None } })
.map(| x | { let __oql_key = (&( x )).clone(); (__oql_key, x) }) .collect::<::std::vec::Vec<_>>() .__oql_sort_and_strip() .into_iter()
.map(| x | { x }) }"#,
    );
    // Filter first, then sort. The more efficient ordering.
    let xs = vec![5, 1, 3, 2, 4];
    let out: Vec<i32> = {   ::core::iter::IntoIterator::into_iter( xs ) .filter_map(| x | { if x > 2 { ::core::option::Option::Some(x) } else { ::core::option::Option::None } })
.map(| x | { let __oql_key = (&( x )).clone(); (__oql_key, x) }) .collect::<::std::vec::Vec<_>>() .__oql_sort_and_strip() .into_iter()
.map(| x | { x }) }
    .collect();
    assert_eq!(out, vec![3, 4, 5]);
}

#[test]
fn alternating_let_where() {
    check_expansion(
        r#"from x in xs
let a = x * 2
where a > 4
let b = a + 1
where b < 12
select b"#,
        r#"{ #[allow(unused_imports)] use ::oql::runtime::SortAndStrip as _;  ::core::iter::IntoIterator::into_iter( xs ) .filter_map(| x | { let a = x * 2; if a > 4 { ::core::option::Option::Some(a) } else { ::core::option::Option::None } })
.filter_map(| a | { let b = a + 1; if b < 12 { ::core::option::Option::Some(b) } else { ::core::option::Option::None } })
.map(| b | { b }) }"#,
    );
    let xs = vec![1, 2, 3, 4, 5, 6];
    let out: Vec<i32> = {   ::core::iter::IntoIterator::into_iter( xs ) .filter_map(| x | { let a = x * 2; if a > 4 { ::core::option::Option::Some(a) } else { ::core::option::Option::None } })
.filter_map(| a | { let b = a + 1; if b < 12 { ::core::option::Option::Some(b) } else { ::core::option::Option::None } })
.map(| b | { b }) }
    .collect();
    // x=3 → a=6,  b=7   (7 < 12 → kept)
    // x=4 → a=8,  b=9   (9 < 12 → kept)
    // x=5 → a=10, b=11  (11 < 12 → kept)
    // x=6 → a=12, b=13  (13 < 12 → dropped)
    assert_eq!(out, vec![7, 9, 11]);
}

#[test]
fn let_between_orderbys() {
    check_expansion(
        r#"from x in xs
orderby x
let doubled = x * 2
orderby doubled desc
select doubled"#,
        r#"{ #[allow(unused_imports)] use ::oql::runtime::SortAndStrip as _;  ::core::iter::IntoIterator::into_iter( xs ) .map(| x | { let __oql_key = (&( x )).clone(); (__oql_key, x) }) .collect::<::std::vec::Vec<_>>() .__oql_sort_and_strip() .into_iter()
.map(| x | { let doubled = x * 2; let __oql_key = ::core::cmp::Reverse((&( doubled )).clone()); (__oql_key, doubled) }) .collect::<::std::vec::Vec<_>>() .__oql_sort_and_strip() .into_iter()
.map(| doubled | { doubled }) }"#,
    );
    // `let` between two `orderby`s must flush the pending sorts. Otherwise
    // the let binding wouldn't see its predecessor in a composite sort.
    let xs = vec![3, 1, 2];
    let out: Vec<i32> = {   ::core::iter::IntoIterator::into_iter( xs ) .map(| x | { let __oql_key = (&( x )).clone(); (__oql_key, x) }) .collect::<::std::vec::Vec<_>>() .__oql_sort_and_strip() .into_iter()
.map(| x | { let doubled = x * 2; let __oql_key = ::core::cmp::Reverse((&( doubled )).clone()); (__oql_key, doubled) }) .collect::<::std::vec::Vec<_>>() .__oql_sort_and_strip() .into_iter()
.map(| doubled | { doubled }) }
    .collect();
    // After the first sort: [1,2,3]. After let: [2,4,6]. After second sort desc: [6,4,2].
    assert_eq!(out, vec![6, 4, 2]);
}

#[test]
fn multiple_wheres_order_independent() {
    check_expansion(
        r#"from x in xs.clone()
where x > 3
where x < 8
select x"#,
        r#"{ #[allow(unused_imports)] use ::oql::runtime::SortAndStrip as _;  ::core::iter::IntoIterator::into_iter( xs.clone() ) .filter_map(| x | { if x > 3 { ::core::option::Option::Some(x) } else { ::core::option::Option::None } })
.filter_map(| x | { if x < 8 { ::core::option::Option::Some(x) } else { ::core::option::Option::None } })
.map(| x | { x }) }"#,
    );
    check_expansion(
        r#"from x in xs
where x < 8
where x > 3
select x"#,
        r#"{ #[allow(unused_imports)] use ::oql::runtime::SortAndStrip as _;  ::core::iter::IntoIterator::into_iter( xs ) .filter_map(| x | { if x < 8 { ::core::option::Option::Some(x) } else { ::core::option::Option::None } })
.filter_map(| x | { if x > 3 { ::core::option::Option::Some(x) } else { ::core::option::Option::None } })
.map(| x | { x }) }"#,
    );
    // Two independent `where`s should produce the same result regardless
    // of the order they appear in.
    let xs = vec![1, 2, 3, 4, 5, 6, 7, 8, 9, 10];
    let forward: Vec<i32> = {   ::core::iter::IntoIterator::into_iter( xs.clone() ) .filter_map(| x | { if x > 3 { ::core::option::Option::Some(x) } else { ::core::option::Option::None } })
.filter_map(| x | { if x < 8 { ::core::option::Option::Some(x) } else { ::core::option::Option::None } })
.map(| x | { x }) }
    .collect();
    let reverse: Vec<i32> = {   ::core::iter::IntoIterator::into_iter( xs ) .filter_map(| x | { if x < 8 { ::core::option::Option::Some(x) } else { ::core::option::Option::None } })
.filter_map(| x | { if x > 3 { ::core::option::Option::Some(x) } else { ::core::option::Option::None } })
.map(| x | { x }) }
    .collect();
    assert_eq!(forward, reverse);
    assert_eq!(forward, vec![4, 5, 6, 7]);
}

#[test]
fn where_between_joins() {
    check_expansion(
        r#"from a in aa
join b in bb on a.k == b.k
where b.flag
join c in cc on b.k2 == c.k2
select (a.v, c.w)"#,
        r#"{ #[allow(unused_imports)] use ::oql::runtime::SortAndStrip as _; let __oql_join_map_0 = { let __oql_inner_source = bb; let __oql_inner_iter = ::core::iter::IntoIterator::into_iter(__oql_inner_source); let __oql_hint = ::core::iter::Iterator::size_hint(&__oql_inner_iter).0; let mut __oql_map: ::std::collections::HashMap<_, ::std::vec::Vec<_>> = ::std::collections::HashMap::with_capacity(__oql_hint); for b in __oql_inner_iter { let __oql_k = (&( b.k )).clone(); __oql_map.entry(__oql_k).or_insert_with(::std::vec::Vec::new).push(b); } __oql_map }; let __oql_join_map_1 = { let __oql_inner_source = cc; let __oql_inner_iter = ::core::iter::IntoIterator::into_iter(__oql_inner_source); let __oql_hint = ::core::iter::Iterator::size_hint(&__oql_inner_iter).0; let mut __oql_map: ::std::collections::HashMap<_, ::std::vec::Vec<_>> = ::std::collections::HashMap::with_capacity(__oql_hint); for c in __oql_inner_iter { let __oql_k = (&( c.k2 )).clone(); __oql_map.entry(__oql_k).or_insert_with(::std::vec::Vec::new).push(c); } __oql_map }; ::core::iter::IntoIterator::into_iter( aa ) .flat_map(move | a | { let __oql_outer_key = (&( a.k )).clone(); let mut __oql_matches = match __oql_join_map_0.get(&__oql_outer_key) { ::core::option::Option::None => ::oql::runtime::JoinMatches::Empty, ::core::option::Option::Some(__m) => if __m.len() == 1 { let b = ::core::clone::Clone::clone(&__m[0]); let a = ::core::clone::Clone::clone(&a); if !( b.flag ) { ::oql::runtime::JoinMatches::Empty } else { ::oql::runtime::JoinMatches::Once(::core::option::Option::Some((a, b))) } } else { let mut __oql_emit = ::std::vec::Vec::with_capacity(__m.len()); for __oql_inner in __m.iter() { let b = ::core::clone::Clone::clone(__oql_inner); let a = ::core::clone::Clone::clone(&a); if !( b.flag ) { continue; } __oql_emit.push((a, b)); } ::oql::runtime::JoinMatches::many(__oql_emit) }, }; ::core::iter::from_fn(move || __oql_matches.next()) })
.flat_map(move | (a, b) | { let _ = &a; let __oql_outer_key = (&( b.k2 )).clone(); let mut __oql_matches = match __oql_join_map_1.get(&__oql_outer_key) { ::core::option::Option::None => ::oql::runtime::JoinMatches::Empty, ::core::option::Option::Some(__m) => if __m.len() == 1 { let c = ::core::clone::Clone::clone(&__m[0]); let a = ::core::clone::Clone::clone(&a); ::oql::runtime::JoinMatches::Once(::core::option::Option::Some((a, c))) } else { let mut __oql_emit = ::std::vec::Vec::with_capacity(__m.len()); for __oql_inner in __m.iter() { let c = ::core::clone::Clone::clone(__oql_inner); let a = ::core::clone::Clone::clone(&a); __oql_emit.push((a, c)); } ::oql::runtime::JoinMatches::many(__oql_emit) }, }; ::core::iter::from_fn(move || __oql_matches.next()) })
.map(| (a, c) | { (a.v, c.w) }) }"#,
    );
    // `where` must be able to filter on the joined binding between two joins.
    #[derive(Clone)]
    struct A {
        k: u32,
        v: &'static str,
    }
    #[derive(Clone)]
    struct B {
        k: u32,
        flag: bool,
        k2: u32,
    }
    #[derive(Clone)]
    struct C {
        k2: u32,
        w: &'static str,
    }

    let aa = vec![A { k: 1, v: "a" }];
    let bb = vec![
        B {
            k: 1,
            flag: true,
            k2: 10,
        },
        B {
            k: 1,
            flag: false,
            k2: 11,
        },
    ];
    let cc = vec![C { k2: 10, w: "x" }, C { k2: 11, w: "y" }];

    let out: Vec<(&'static str, &'static str)> = {  let __oql_join_map_0 = { let __oql_inner_source = bb; let __oql_inner_iter = ::core::iter::IntoIterator::into_iter(__oql_inner_source); let __oql_hint = ::core::iter::Iterator::size_hint(&__oql_inner_iter).0; let mut __oql_map: ::std::collections::HashMap<_, ::std::vec::Vec<_>> = ::std::collections::HashMap::with_capacity(__oql_hint); for b in __oql_inner_iter { let __oql_k = (&( b.k )).clone(); __oql_map.entry(__oql_k).or_insert_with(::std::vec::Vec::new).push(b); } __oql_map }; let __oql_join_map_1 = { let __oql_inner_source = cc; let __oql_inner_iter = ::core::iter::IntoIterator::into_iter(__oql_inner_source); let __oql_hint = ::core::iter::Iterator::size_hint(&__oql_inner_iter).0; let mut __oql_map: ::std::collections::HashMap<_, ::std::vec::Vec<_>> = ::std::collections::HashMap::with_capacity(__oql_hint); for c in __oql_inner_iter { let __oql_k = (&( c.k2 )).clone(); __oql_map.entry(__oql_k).or_insert_with(::std::vec::Vec::new).push(c); } __oql_map }; ::core::iter::IntoIterator::into_iter( aa ) .flat_map(move | a | { let __oql_outer_key = (&( a.k )).clone(); let mut __oql_matches = match __oql_join_map_0.get(&__oql_outer_key) { ::core::option::Option::None => ::oql::runtime::JoinMatches::Empty, ::core::option::Option::Some(__m) => if __m.len() == 1 { let b = ::core::clone::Clone::clone(&__m[0]); let a = ::core::clone::Clone::clone(&a); if !( b.flag ) { ::oql::runtime::JoinMatches::Empty } else { ::oql::runtime::JoinMatches::Once(::core::option::Option::Some((a, b))) } } else { let mut __oql_emit = ::std::vec::Vec::with_capacity(__m.len()); for __oql_inner in __m.iter() { let b = ::core::clone::Clone::clone(__oql_inner); let a = ::core::clone::Clone::clone(&a); if !( b.flag ) { continue; } __oql_emit.push((a, b)); } ::oql::runtime::JoinMatches::many(__oql_emit) }, }; ::core::iter::from_fn(move || __oql_matches.next()) })
.flat_map(move | (a, b) | { let _ = &a; let __oql_outer_key = (&( b.k2 )).clone(); let mut __oql_matches = match __oql_join_map_1.get(&__oql_outer_key) { ::core::option::Option::None => ::oql::runtime::JoinMatches::Empty, ::core::option::Option::Some(__m) => if __m.len() == 1 { let c = ::core::clone::Clone::clone(&__m[0]); let a = ::core::clone::Clone::clone(&a); ::oql::runtime::JoinMatches::Once(::core::option::Option::Some((a, c))) } else { let mut __oql_emit = ::std::vec::Vec::with_capacity(__m.len()); for __oql_inner in __m.iter() { let c = ::core::clone::Clone::clone(__oql_inner); let a = ::core::clone::Clone::clone(&a); __oql_emit.push((a, c)); } ::oql::runtime::JoinMatches::many(__oql_emit) }, }; ::core::iter::from_fn(move || __oql_matches.next()) })
.map(| (a, c) | { (a.v, c.w) }) }
    .collect();

    // Only b with flag=true survives, so only its k2 (=10) is used for the
    // second join → match with c="x".
    assert_eq!(out, vec![("a", "x")]);
}
