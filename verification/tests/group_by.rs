#[allow(unused_imports)]
use oql::runtime::SortAndStrip;
use oql::expand::expand_tokens;
use oql::lexer::tokenize;
use oql::token::{Delim, Tok};

/// The text of each token.
fn texts(toks: &[Tok]) -> Vec<String> {
    toks.iter()
        .map(|t| match t {
            Tok::Ident(s) => s.clone(),
            Tok::Punct(c, _) => c.to_string(),
            Tok::Lit(s) => s.clone(),
            Tok::Open(Delim::Paren) => "(".to_string(),
            Tok::Open(Delim::Bracket) => "[".to_string(),
            Tok::Open(Delim::Brace) => "{".to_string(),
            Tok::Open(Delim::Invisible) => "<".to_string(),
            Tok::Close(Delim::Paren) => ")".to_string(),
            Tok::Close(Delim::Bracket) => "]".to_string(),
            Tok::Close(Delim::Brace) => "}".to_string(),
            Tok::Close(Delim::Invisible) => ">".to_string(),
        })
        .collect()
}

/// The query expands to exactly the tokens of `code`.
fn check_expansion(query: &str, code: &str) {
    let out = expand_tokens(&tokenize(query)).expect("the query expands");
    assert_eq!(texts(&out).join(" "), texts(&tokenize(code)).join(" "));
}

#[test]
fn group_by_counts_per_key() {
    check_expansion(
        r#"from n in nums
group n by n % 2 into g
select (g.key, g.items.len())"#,
        r#"{ #[allow(unused_imports)] use ::oql::runtime::SortAndStrip as _;  ::core::iter::IntoIterator::into_iter( nums ) .fold(::std::collections::HashMap::<_, ::std::vec::Vec<_>>::new(), |mut __oql_groups, n | { let __oql_k = (&( n % 2 )).clone(); let __oql_e = n; __oql_groups.entry(__oql_k).or_insert_with(::std::vec::Vec::new).push(__oql_e); __oql_groups }, ).into_iter().map(|(__oql_k, __oql_items)| { let g = ::oql::runtime::Group { key: __oql_k, items: __oql_items, }; g })
.map(| g | { (g.key, g.items.len()) }) }"#,
    );
    let nums = vec![1, 2, 3, 4, 5, 6, 7, 8];

    // Group by parity, produce (parity, count) pairs.
    let mut out: Vec<(u32, usize)> = {   ::core::iter::IntoIterator::into_iter( nums ) .fold(::std::collections::HashMap::<_, ::std::vec::Vec<_>>::new(), |mut __oql_groups, n | { let __oql_k = (&( n % 2 )).clone(); let __oql_e = n; __oql_groups.entry(__oql_k).or_insert_with(::std::vec::Vec::new).push(__oql_e); __oql_groups }, ).into_iter().map(|(__oql_k, __oql_items)| { let g = ::oql::runtime::Group { key: __oql_k, items: __oql_items, }; g })
.map(| g | { (g.key, g.items.len()) }) }
    .collect();

    out.sort_by_key(|(k, _)| *k);
    assert_eq!(out, vec![(0, 4), (1, 4)]);
}

#[test]
fn group_by_with_aggregate_via_iterator() {
    check_expansion(
        r#"from o in orders
group o by o.customer into g
select (g.key, g.items.iter().map(|o| o.amount).sum::<u64>())"#,
        r#"{ #[allow(unused_imports)] use ::oql::runtime::SortAndStrip as _;  ::core::iter::IntoIterator::into_iter( orders ) .fold(::std::collections::HashMap::<_, ::std::vec::Vec<_>>::new(), |mut __oql_groups, o | { let __oql_k = (&( o.customer )).clone(); let __oql_e = o; __oql_groups.entry(__oql_k).or_insert_with(::std::vec::Vec::new).push(__oql_e); __oql_groups }, ).into_iter().map(|(__oql_k, __oql_items)| { let g = ::oql::runtime::Group { key: __oql_k, items: __oql_items, }; g })
.map(| g | { (g.key, g.items.iter().map(|o| o.amount).sum::<u64>()) }) }"#,
    );
    #[derive(Clone)]
    struct Order { customer: &'static str, amount: u64 }

    let orders = vec![
        Order { customer: "A", amount: 10 },
        Order { customer: "B", amount: 20 },
        Order { customer: "A", amount: 30 },
        Order { customer: "B", amount: 5 },
        Order { customer: "A", amount: 15 },
    ];

    let mut out: Vec<(&'static str, u64)> = {   ::core::iter::IntoIterator::into_iter( orders ) .fold(::std::collections::HashMap::<_, ::std::vec::Vec<_>>::new(), |mut __oql_groups, o | { let __oql_k = (&( o.customer )).clone(); let __oql_e = o; __oql_groups.entry(__oql_k).or_insert_with(::std::vec::Vec::new).push(__oql_e); __oql_groups }, ).into_iter().map(|(__oql_k, __oql_items)| { let g = ::oql::runtime::Group { key: __oql_k, items: __oql_items, }; g })
.map(| g | { (g.key, g.items.iter().map(|o| o.amount).sum::<u64>()) }) }
    .collect();

    out.sort_by_key(|(k, _)| *k);
    assert_eq!(out, vec![("A", 55), ("B", 25)]);
}

#[test]
fn group_by_after_where() {
    check_expansion(
        r#"from n in nums
where n > 5
group n by n % 2 into g
select (g.key, g.items.len())"#,
        r#"{ #[allow(unused_imports)] use ::oql::runtime::SortAndStrip as _;  ::core::iter::IntoIterator::into_iter( nums ) .filter_map(| n | { if n > 5 { ::core::option::Option::Some(n) } else { ::core::option::Option::None } })
.fold(::std::collections::HashMap::<_, ::std::vec::Vec<_>>::new(), |mut __oql_groups, n | { let __oql_k = (&( n % 2 )).clone(); let __oql_e = n; __oql_groups.entry(__oql_k).or_insert_with(::std::vec::Vec::new).push(__oql_e); __oql_groups }, ).into_iter().map(|(__oql_k, __oql_items)| { let g = ::oql::runtime::Group { key: __oql_k, items: __oql_items, }; g })
.map(| g | { (g.key, g.items.len()) }) }"#,
    );
    // Filter first, then group. The filtered-out elements never reach
    // the grouping stage; we verify this by watching the group sizes.
    let nums = vec![1, 2, 3, 4, 5, 6, 7, 8, 9, 10];

    let mut out: Vec<(u32, usize)> = {   ::core::iter::IntoIterator::into_iter( nums ) .filter_map(| n | { if n > 5 { ::core::option::Option::Some(n) } else { ::core::option::Option::None } })
.fold(::std::collections::HashMap::<_, ::std::vec::Vec<_>>::new(), |mut __oql_groups, n | { let __oql_k = (&( n % 2 )).clone(); let __oql_e = n; __oql_groups.entry(__oql_k).or_insert_with(::std::vec::Vec::new).push(__oql_e); __oql_groups }, ).into_iter().map(|(__oql_k, __oql_items)| { let g = ::oql::runtime::Group { key: __oql_k, items: __oql_items, }; g })
.map(| g | { (g.key, g.items.len()) }) }
    .collect();

    out.sort_by_key(|(k, _)| *k);
    // After filtering to {6,7,8,9,10}: even → 3, odd → 2.
    assert_eq!(out, vec![(0, 3), (1, 2)]);
}

#[test]
fn where_after_group_by_filters_groups() {
    check_expansion(
        r#"from n in nums
group n by n % 3 into g
where g.items.len() >= 3
select (g.key, g.items.len())"#,
        r#"{ #[allow(unused_imports)] use ::oql::runtime::SortAndStrip as _;  ::core::iter::IntoIterator::into_iter( nums ) .fold(::std::collections::HashMap::<_, ::std::vec::Vec<_>>::new(), |mut __oql_groups, n | { let __oql_k = (&( n % 3 )).clone(); let __oql_e = n; __oql_groups.entry(__oql_k).or_insert_with(::std::vec::Vec::new).push(__oql_e); __oql_groups }, ).into_iter().map(|(__oql_k, __oql_items)| { let g = ::oql::runtime::Group { key: __oql_k, items: __oql_items, }; g })
.filter_map(| g | { if g.items.len() >= 3 { ::core::option::Option::Some(g) } else { ::core::option::Option::None } })
.map(| g | { (g.key, g.items.len()) }) }"#,
    );
    // `where` after `group by` filters groups, not elements.
    let nums = vec![1, 2, 3, 4, 5, 6, 7];

    let mut out: Vec<(u32, usize)> = {   ::core::iter::IntoIterator::into_iter( nums ) .fold(::std::collections::HashMap::<_, ::std::vec::Vec<_>>::new(), |mut __oql_groups, n | { let __oql_k = (&( n % 3 )).clone(); let __oql_e = n; __oql_groups.entry(__oql_k).or_insert_with(::std::vec::Vec::new).push(__oql_e); __oql_groups }, ).into_iter().map(|(__oql_k, __oql_items)| { let g = ::oql::runtime::Group { key: __oql_k, items: __oql_items, }; g })
.filter_map(| g | { if g.items.len() >= 3 { ::core::option::Option::Some(g) } else { ::core::option::Option::None } })
.map(| g | { (g.key, g.items.len()) }) }
    .collect();

    out.sort_by_key(|(k, _)| *k);
    // Groups by n % 3:
    //   key 0 → {3, 6}    size 2; filtered out
    //   key 1 → {1, 4, 7} size 3; kept
    //   key 2 → {2, 5}    size 2; filtered out
    assert_eq!(out, vec![(1, 3)]);
}

#[test]
fn orderby_after_group_by_sorts_groups() {
    check_expansion(
        r#"from n in nums
group n by n into g
orderby g.items.len() desc
select (g.key, g.items.len())"#,
        r#"{ #[allow(unused_imports)] use ::oql::runtime::SortAndStrip as _;  ::core::iter::IntoIterator::into_iter( nums ) .fold(::std::collections::HashMap::<_, ::std::vec::Vec<_>>::new(), |mut __oql_groups, n | { let __oql_k = (&( n )).clone(); let __oql_e = n; __oql_groups.entry(__oql_k).or_insert_with(::std::vec::Vec::new).push(__oql_e); __oql_groups }, ).into_iter().map(|(__oql_k, __oql_items)| { let g = ::oql::runtime::Group { key: __oql_k, items: __oql_items, }; g })
.map(| g | { let __oql_key = ::core::cmp::Reverse((&( g.items.len() )).clone()); (__oql_key, g) }) .collect::<::std::vec::Vec<_>>() .__oql_sort_and_strip() .into_iter()
.map(| g | { (g.key, g.items.len()) }) }"#,
    );
    let nums = vec![5, 1, 5, 2, 5, 3, 3, 2];

    let out: Vec<(u32, usize)> = {   ::core::iter::IntoIterator::into_iter( nums ) .fold(::std::collections::HashMap::<_, ::std::vec::Vec<_>>::new(), |mut __oql_groups, n | { let __oql_k = (&( n )).clone(); let __oql_e = n; __oql_groups.entry(__oql_k).or_insert_with(::std::vec::Vec::new).push(__oql_e); __oql_groups }, ).into_iter().map(|(__oql_k, __oql_items)| { let g = ::oql::runtime::Group { key: __oql_k, items: __oql_items, }; g })
.map(| g | { let __oql_key = ::core::cmp::Reverse((&( g.items.len() )).clone()); (__oql_key, g) }) .collect::<::std::vec::Vec<_>>() .__oql_sort_and_strip() .into_iter()
.map(| g | { (g.key, g.items.len()) }) }
    .collect();

    // Groups: 5→3, 2→2, 3→2, 1→1. Sorted by size desc.
    // Ties (2 and 3) may appear in either order; check length ordering.
    assert_eq!(out[0], (5, 3));
    assert_eq!(out[3], (1, 1));
    assert!(out[1].1 == 2 && out[2].1 == 2);
}

#[test]
fn group_by_after_join() {
    check_expansion(
        r#"from o in orders
join c in customers on o.customer_id == c.id
group o by c.country into g
select (g.key, g.items.iter().map(|o| o.amount).sum::<u64>())"#,
        r#"{ #[allow(unused_imports)] use ::oql::runtime::SortAndStrip as _; let __oql_join_map_0 = { let __oql_inner_source = customers; let __oql_inner_iter = ::core::iter::IntoIterator::into_iter(__oql_inner_source); let __oql_hint = ::core::iter::Iterator::size_hint(&__oql_inner_iter).0; let mut __oql_map: ::std::collections::HashMap<_, ::std::vec::Vec<_>> = ::std::collections::HashMap::with_capacity(__oql_hint); for c in __oql_inner_iter { let __oql_k = (&( c.id )).clone(); __oql_map.entry(__oql_k).or_insert_with(::std::vec::Vec::new).push(c); } __oql_map }; ::core::iter::IntoIterator::into_iter( orders ) .flat_map(move | o | { let __oql_outer_key = (&( o.customer_id )).clone(); let mut __oql_matches = match __oql_join_map_0.get(&__oql_outer_key) { ::core::option::Option::None => ::oql::runtime::JoinMatches::Empty, ::core::option::Option::Some(__m) => if __m.len() == 1 { let c = ::core::clone::Clone::clone(&__m[0]); let o = ::core::clone::Clone::clone(&o); ::oql::runtime::JoinMatches::Once(::core::option::Option::Some((o, c))) } else { let mut __oql_emit = ::std::vec::Vec::with_capacity(__m.len()); for __oql_inner in __m.iter() { let c = ::core::clone::Clone::clone(__oql_inner); let o = ::core::clone::Clone::clone(&o); __oql_emit.push((o, c)); } ::oql::runtime::JoinMatches::many(__oql_emit) }, }; ::core::iter::from_fn(move || __oql_matches.next()) })
.fold(::std::collections::HashMap::<_, ::std::vec::Vec<_>>::new(), |mut __oql_groups, (o, c) | { let __oql_k = (&( c.country )).clone(); let __oql_e = o; __oql_groups.entry(__oql_k).or_insert_with(::std::vec::Vec::new).push(__oql_e); __oql_groups }, ).into_iter().map(|(__oql_k, __oql_items)| { let g = ::oql::runtime::Group { key: __oql_k, items: __oql_items, }; g })
.map(| g | { (g.key, g.items.iter().map(|o| o.amount).sum::<u64>()) }) }"#,
    );
    // Group after a join: bindings from the join environment
    // (outer + inner) are all lost at the group-by barrier;
    // only the group survives.
    #[derive(Clone)]
    struct Order { customer_id: u32, amount: u64 }
    #[derive(Clone)]
    struct Customer { id: u32, country: &'static str }

    let orders = vec![
        Order { customer_id: 1, amount: 100 },
        Order { customer_id: 2, amount: 50 },
        Order { customer_id: 1, amount: 30 },
        Order { customer_id: 3, amount: 200 },
    ];
    let customers = vec![
        Customer { id: 1, country: "DE" },
        Customer { id: 2, country: "DE" },
        Customer { id: 3, country: "IT" },
    ];

    // Total revenue per country.
    let mut out: Vec<(&'static str, u64)> = {  let __oql_join_map_0 = { let __oql_inner_source = customers; let __oql_inner_iter = ::core::iter::IntoIterator::into_iter(__oql_inner_source); let __oql_hint = ::core::iter::Iterator::size_hint(&__oql_inner_iter).0; let mut __oql_map: ::std::collections::HashMap<_, ::std::vec::Vec<_>> = ::std::collections::HashMap::with_capacity(__oql_hint); for c in __oql_inner_iter { let __oql_k = (&( c.id )).clone(); __oql_map.entry(__oql_k).or_insert_with(::std::vec::Vec::new).push(c); } __oql_map }; ::core::iter::IntoIterator::into_iter( orders ) .flat_map(move | o | { let __oql_outer_key = (&( o.customer_id )).clone(); let mut __oql_matches = match __oql_join_map_0.get(&__oql_outer_key) { ::core::option::Option::None => ::oql::runtime::JoinMatches::Empty, ::core::option::Option::Some(__m) => if __m.len() == 1 { let c = ::core::clone::Clone::clone(&__m[0]); let o = ::core::clone::Clone::clone(&o); ::oql::runtime::JoinMatches::Once(::core::option::Option::Some((o, c))) } else { let mut __oql_emit = ::std::vec::Vec::with_capacity(__m.len()); for __oql_inner in __m.iter() { let c = ::core::clone::Clone::clone(__oql_inner); let o = ::core::clone::Clone::clone(&o); __oql_emit.push((o, c)); } ::oql::runtime::JoinMatches::many(__oql_emit) }, }; ::core::iter::from_fn(move || __oql_matches.next()) })
.fold(::std::collections::HashMap::<_, ::std::vec::Vec<_>>::new(), |mut __oql_groups, (o, c) | { let __oql_k = (&( c.country )).clone(); let __oql_e = o; __oql_groups.entry(__oql_k).or_insert_with(::std::vec::Vec::new).push(__oql_e); __oql_groups }, ).into_iter().map(|(__oql_k, __oql_items)| { let g = ::oql::runtime::Group { key: __oql_k, items: __oql_items, }; g })
.map(| g | { (g.key, g.items.iter().map(|o| o.amount).sum::<u64>()) }) }
    .collect();

    out.sort_by_key(|(k, _)| *k);
    assert_eq!(out, vec![("DE", 180), ("IT", 200)]);
}

#[test]
fn group_by_on_projection() {
    check_expansion(
        r#"from o in orders
group o.amount by o.customer into g
select (g.key, g.items.clone())"#,
        r#"{ #[allow(unused_imports)] use ::oql::runtime::SortAndStrip as _;  ::core::iter::IntoIterator::into_iter( orders ) .fold(::std::collections::HashMap::<_, ::std::vec::Vec<_>>::new(), |mut __oql_groups, o | { let __oql_k = (&( o.customer )).clone(); let __oql_e = o.amount; __oql_groups.entry(__oql_k).or_insert_with(::std::vec::Vec::new).push(__oql_e); __oql_groups }, ).into_iter().map(|(__oql_k, __oql_items)| { let g = ::oql::runtime::Group { key: __oql_k, items: __oql_items, }; g })
.map(| g | { (g.key, g.items.clone()) }) }"#,
    );
    // Group an expression rather than the range variable itself.
    // Here we group amounts (the projection) by customer.
    #[derive(Clone)]
    struct Order { customer: &'static str, amount: u64 }

    let orders = vec![
        Order { customer: "A", amount: 10 },
        Order { customer: "B", amount: 20 },
        Order { customer: "A", amount: 30 },
    ];

    let mut out: Vec<(&'static str, Vec<u64>)> = {   ::core::iter::IntoIterator::into_iter( orders ) .fold(::std::collections::HashMap::<_, ::std::vec::Vec<_>>::new(), |mut __oql_groups, o | { let __oql_k = (&( o.customer )).clone(); let __oql_e = o.amount; __oql_groups.entry(__oql_k).or_insert_with(::std::vec::Vec::new).push(__oql_e); __oql_groups }, ).into_iter().map(|(__oql_k, __oql_items)| { let g = ::oql::runtime::Group { key: __oql_k, items: __oql_items, }; g })
.map(| g | { (g.key, g.items.clone()) }) }
    .collect();

    out.sort_by_key(|(k, _)| *k);
    assert_eq!(out[0].0, "A");
    assert_eq!({ let mut v = out[0].1.clone(); v.sort(); v }, vec![10, 30]);
    assert_eq!(out[1], ("B", vec![20]));
}

#[test]
fn group_join_basic() {
    check_expansion(
        r#"from c in customers
join o in orders on c.id == o.customer_id into o_group
select (c.name, o_group.len())"#,
        r#"{ #[allow(unused_imports)] use ::oql::runtime::SortAndStrip as _; let __oql_gjoin_map_0 = { let __oql_inner_source = orders; let __oql_inner_iter = ::core::iter::IntoIterator::into_iter(__oql_inner_source); let __oql_hint = ::core::iter::Iterator::size_hint(&__oql_inner_iter).0; let mut __oql_map: ::std::collections::HashMap<_, ::std::vec::Vec<_>> = ::std::collections::HashMap::with_capacity(__oql_hint); for o in __oql_inner_iter { let __oql_k = (&( o.customer_id )).clone(); __oql_map.entry(__oql_k).or_insert_with(::std::vec::Vec::new).push(o); } __oql_map }; ::core::iter::IntoIterator::into_iter( customers ) .map(move | c | { let __oql_outer_key = (&( c.id )).clone(); let o_group: ::std::vec::Vec<_> = match __oql_gjoin_map_0.get(&__oql_outer_key) { ::core::option::Option::None => ::std::vec::Vec::new(), ::core::option::Option::Some(__m) => ::core::clone::Clone::clone(__m), }; (c, o_group) })
.map(| (c, o_group) | { (c.name, o_group.len()) }) }"#,
    );
    #[derive(Clone)]
    struct Customer { id: u32, name: &'static str }
    #[derive(Clone)]
    struct Order { customer_id: u32 }

    let customers = vec![
        Customer { id: 1, name: "Anna" },
        Customer { id: 2, name: "Ben" },
    ];
    let orders = vec![
        Order { customer_id: 1 },
        Order { customer_id: 1 },
        Order { customer_id: 2 },
    ];

    let mut out: Vec<(&'static str, usize)> = {  let __oql_gjoin_map_0 = { let __oql_inner_source = orders; let __oql_inner_iter = ::core::iter::IntoIterator::into_iter(__oql_inner_source); let __oql_hint = ::core::iter::Iterator::size_hint(&__oql_inner_iter).0; let mut __oql_map: ::std::collections::HashMap<_, ::std::vec::Vec<_>> = ::std::collections::HashMap::with_capacity(__oql_hint); for o in __oql_inner_iter { let __oql_k = (&( o.customer_id )).clone(); __oql_map.entry(__oql_k).or_insert_with(::std::vec::Vec::new).push(o); } __oql_map }; ::core::iter::IntoIterator::into_iter( customers ) .map(move | c | { let __oql_outer_key = (&( c.id )).clone(); let o_group: ::std::vec::Vec<_> = match __oql_gjoin_map_0.get(&__oql_outer_key) { ::core::option::Option::None => ::std::vec::Vec::new(), ::core::option::Option::Some(__m) => ::core::clone::Clone::clone(__m), }; (c, o_group) })
.map(| (c, o_group) | { (c.name, o_group.len()) }) }
    .collect();

    out.sort_by_key(|(k, _)| *k);
    assert_eq!(out, vec![("Anna", 2), ("Ben", 1)]);
}

#[test]
fn group_join_empty_groups_preserved() {
    check_expansion(
        r#"from c in customers
join o in orders on c.id == o.customer_id into o_group
select (c.name, o_group.len())"#,
        r#"{ #[allow(unused_imports)] use ::oql::runtime::SortAndStrip as _; let __oql_gjoin_map_0 = { let __oql_inner_source = orders; let __oql_inner_iter = ::core::iter::IntoIterator::into_iter(__oql_inner_source); let __oql_hint = ::core::iter::Iterator::size_hint(&__oql_inner_iter).0; let mut __oql_map: ::std::collections::HashMap<_, ::std::vec::Vec<_>> = ::std::collections::HashMap::with_capacity(__oql_hint); for o in __oql_inner_iter { let __oql_k = (&( o.customer_id )).clone(); __oql_map.entry(__oql_k).or_insert_with(::std::vec::Vec::new).push(o); } __oql_map }; ::core::iter::IntoIterator::into_iter( customers ) .map(move | c | { let __oql_outer_key = (&( c.id )).clone(); let o_group: ::std::vec::Vec<_> = match __oql_gjoin_map_0.get(&__oql_outer_key) { ::core::option::Option::None => ::std::vec::Vec::new(), ::core::option::Option::Some(__m) => ::core::clone::Clone::clone(__m), }; (c, o_group) })
.map(| (c, o_group) | { (c.name, o_group.len()) }) }"#,
    );
    // Group-join has left-join semantics: outer rows with no match
    // still produce output, with an empty group.
    #[derive(Clone)]
    struct Customer { id: u32, name: &'static str }
    #[derive(Clone)]
    struct Order { customer_id: u32 }

    let customers = vec![
        Customer { id: 1, name: "Anna" },
        Customer { id: 2, name: "Ben" },
        Customer { id: 3, name: "Cleo" },
    ];
    // No orders for customer 2.
    let orders = vec![
        Order { customer_id: 1 },
        Order { customer_id: 3 },
        Order { customer_id: 1 },
    ];

    let mut out: Vec<(&'static str, usize)> = {  let __oql_gjoin_map_0 = { let __oql_inner_source = orders; let __oql_inner_iter = ::core::iter::IntoIterator::into_iter(__oql_inner_source); let __oql_hint = ::core::iter::Iterator::size_hint(&__oql_inner_iter).0; let mut __oql_map: ::std::collections::HashMap<_, ::std::vec::Vec<_>> = ::std::collections::HashMap::with_capacity(__oql_hint); for o in __oql_inner_iter { let __oql_k = (&( o.customer_id )).clone(); __oql_map.entry(__oql_k).or_insert_with(::std::vec::Vec::new).push(o); } __oql_map }; ::core::iter::IntoIterator::into_iter( customers ) .map(move | c | { let __oql_outer_key = (&( c.id )).clone(); let o_group: ::std::vec::Vec<_> = match __oql_gjoin_map_0.get(&__oql_outer_key) { ::core::option::Option::None => ::std::vec::Vec::new(), ::core::option::Option::Some(__m) => ::core::clone::Clone::clone(__m), }; (c, o_group) })
.map(| (c, o_group) | { (c.name, o_group.len()) }) }
    .collect();

    out.sort_by_key(|(k, _)| *k);
    assert_eq!(out, vec![("Anna", 2), ("Ben", 0), ("Cleo", 1)]);
}

#[test]
fn group_join_then_where() {
    check_expansion(
        r#"from c in customers
join o in orders on c.id == o.customer_id into o_group
where !o_group.is_empty()
select c.name"#,
        r#"{ #[allow(unused_imports)] use ::oql::runtime::SortAndStrip as _; let __oql_gjoin_map_0 = { let __oql_inner_source = orders; let __oql_inner_iter = ::core::iter::IntoIterator::into_iter(__oql_inner_source); let __oql_hint = ::core::iter::Iterator::size_hint(&__oql_inner_iter).0; let mut __oql_map: ::std::collections::HashMap<_, ::std::vec::Vec<_>> = ::std::collections::HashMap::with_capacity(__oql_hint); for o in __oql_inner_iter { let __oql_k = (&( o.customer_id )).clone(); __oql_map.entry(__oql_k).or_insert_with(::std::vec::Vec::new).push(o); } __oql_map }; ::core::iter::IntoIterator::into_iter( customers ) .map(move | c | { let __oql_outer_key = (&( c.id )).clone(); let o_group: ::std::vec::Vec<_> = match __oql_gjoin_map_0.get(&__oql_outer_key) { ::core::option::Option::None => ::std::vec::Vec::new(), ::core::option::Option::Some(__m) => ::core::clone::Clone::clone(__m), }; (c, o_group) })
.filter_map(| (c, o_group) | { let _ = &c; if !o_group.is_empty() { ::core::option::Option::Some(c) } else { ::core::option::Option::None } })
.map(| c | { c.name }) }"#,
    );
    // Filter outer rows by a property of their group; e.g. keep only
    // customers with at least one order.
    #[derive(Clone)]
    struct Customer { id: u32, name: &'static str }
    #[derive(Clone)]
    struct Order { customer_id: u32 }

    let customers = vec![
        Customer { id: 1, name: "Anna" },
        Customer { id: 2, name: "Ben" },
        Customer { id: 3, name: "Cleo" },
    ];
    let orders = vec![
        Order { customer_id: 1 },
        Order { customer_id: 3 },
    ];

    let mut out: Vec<&'static str> = {  let __oql_gjoin_map_0 = { let __oql_inner_source = orders; let __oql_inner_iter = ::core::iter::IntoIterator::into_iter(__oql_inner_source); let __oql_hint = ::core::iter::Iterator::size_hint(&__oql_inner_iter).0; let mut __oql_map: ::std::collections::HashMap<_, ::std::vec::Vec<_>> = ::std::collections::HashMap::with_capacity(__oql_hint); for o in __oql_inner_iter { let __oql_k = (&( o.customer_id )).clone(); __oql_map.entry(__oql_k).or_insert_with(::std::vec::Vec::new).push(o); } __oql_map }; ::core::iter::IntoIterator::into_iter( customers ) .map(move | c | { let __oql_outer_key = (&( c.id )).clone(); let o_group: ::std::vec::Vec<_> = match __oql_gjoin_map_0.get(&__oql_outer_key) { ::core::option::Option::None => ::std::vec::Vec::new(), ::core::option::Option::Some(__m) => ::core::clone::Clone::clone(__m), }; (c, o_group) })
.filter_map(| (c, o_group) | { let _ = &c; if !o_group.is_empty() { ::core::option::Option::Some(c) } else { ::core::option::Option::None } })
.map(| c | { c.name }) }
    .collect();

    out.sort();
    assert_eq!(out, vec!["Anna", "Cleo"]);
}

#[test]
fn group_join_with_sum_on_group() {
    check_expansion(
        r#"from c in customers
join o in orders on c.id == o.customer_id into o_group
select (c.name, o_group.iter().map(|o| o.amount).sum::<u64>())"#,
        r#"{ #[allow(unused_imports)] use ::oql::runtime::SortAndStrip as _; let __oql_gjoin_map_0 = { let __oql_inner_source = orders; let __oql_inner_iter = ::core::iter::IntoIterator::into_iter(__oql_inner_source); let __oql_hint = ::core::iter::Iterator::size_hint(&__oql_inner_iter).0; let mut __oql_map: ::std::collections::HashMap<_, ::std::vec::Vec<_>> = ::std::collections::HashMap::with_capacity(__oql_hint); for o in __oql_inner_iter { let __oql_k = (&( o.customer_id )).clone(); __oql_map.entry(__oql_k).or_insert_with(::std::vec::Vec::new).push(o); } __oql_map }; ::core::iter::IntoIterator::into_iter( customers ) .map(move | c | { let __oql_outer_key = (&( c.id )).clone(); let o_group: ::std::vec::Vec<_> = match __oql_gjoin_map_0.get(&__oql_outer_key) { ::core::option::Option::None => ::std::vec::Vec::new(), ::core::option::Option::Some(__m) => ::core::clone::Clone::clone(__m), }; (c, o_group) })
.map(| (c, o_group) | { (c.name, o_group.iter().map(|o| o.amount).sum::<u64>()) }) }"#,
    );
    // Classic "orders per customer" report.
    #[derive(Clone)]
    struct Customer { id: u32, name: &'static str }
    #[derive(Clone)]
    struct Order { customer_id: u32, amount: u64 }

    let customers = vec![
        Customer { id: 1, name: "Anna" },
        Customer { id: 2, name: "Ben" },
    ];
    let orders = vec![
        Order { customer_id: 1, amount: 50 },
        Order { customer_id: 1, amount: 75 },
        Order { customer_id: 2, amount: 100 },
        Order { customer_id: 1, amount: 25 },
    ];

    let mut out: Vec<(&'static str, u64)> = {  let __oql_gjoin_map_0 = { let __oql_inner_source = orders; let __oql_inner_iter = ::core::iter::IntoIterator::into_iter(__oql_inner_source); let __oql_hint = ::core::iter::Iterator::size_hint(&__oql_inner_iter).0; let mut __oql_map: ::std::collections::HashMap<_, ::std::vec::Vec<_>> = ::std::collections::HashMap::with_capacity(__oql_hint); for o in __oql_inner_iter { let __oql_k = (&( o.customer_id )).clone(); __oql_map.entry(__oql_k).or_insert_with(::std::vec::Vec::new).push(o); } __oql_map }; ::core::iter::IntoIterator::into_iter( customers ) .map(move | c | { let __oql_outer_key = (&( c.id )).clone(); let o_group: ::std::vec::Vec<_> = match __oql_gjoin_map_0.get(&__oql_outer_key) { ::core::option::Option::None => ::std::vec::Vec::new(), ::core::option::Option::Some(__m) => ::core::clone::Clone::clone(__m), }; (c, o_group) })
.map(| (c, o_group) | { (c.name, o_group.iter().map(|o| o.amount).sum::<u64>()) }) }
    .collect();

    out.sort_by_key(|(k, _)| *k);
    assert_eq!(out, vec![("Anna", 150), ("Ben", 100)]);
}
