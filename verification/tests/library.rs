use oql::ast::JoinKind;
use oql::expand::{expand, expand_tokens, from_binding, ExpandError};
use oql::lexer::tokenize;
use oql::liveness::{bare_idents, compute_live_after, idents_in_tokens};
use oql::names::NameSet;
use oql::parse::{parse_query, ParseError};
use oql::plan::{plan_query, StageOp};
use oql::rewrite::rewrite_into;
use oql::runtime::{zip_must_step, Group, JoinMatches, SortAndStrip, ZipLengthMismatch};
use oql::token::{Delim, Tok};
use oql::tree::{build, flatten, TokTree};

fn words(toks: &[Tok]) -> Vec<String> {
    toks.iter()
        .map(|t| match t {
            Tok::Ident(s) => s.clone(),
            Tok::Punct(c, _) => c.to_string(),
            Tok::Lit(s) => s.clone(),
            Tok::Open(Delim::Paren) => "(".to_string(),
            Tok::Open(Delim::Bracket) => "[".to_string(),
            Tok::Open(Delim::Brace) => "{".to_string(),
            Tok::Open(Delim::Invisible) => "<".to_string(),
            Tok::Close(Delim::Paren) => ")".to_string(),
            Tok::Close(Delim::Bracket) => "]".to_string(),
            Tok::Close(Delim::Brace) => "}".to_string(),
            Tok::Close(Delim::Invisible) => ">".to_string(),
        })
        .collect()
}

fn kind(e: ExpandError) -> ParseError {
    match e {
        ExpandError::Parse(f) => f.kind,
        other => panic!("expected a parse error, got {:?}", other),
    }
}

fn at(e: ExpandError) -> usize {
    match e {
        ExpandError::Parse(f) => f.at,
        ExpandError::FromPattern { at } => at,
    }
}

fn message_of(text: &str) -> String {
    let toks = tokenize(text);
    expand_tokens(&toks).unwrap_err().message(&toks)
}

fn names_of(v: &[String]) -> Vec<&str> {
    v.iter().map(|s| s.as_str()).collect()
}

fn set_of(s: &NameSet) -> Vec<String> {
    let mut v: Vec<String> = (0..s.len()).map(|i| s.get(i).clone()).collect();
    v.sort();
    v
}

// --- errors -------------------------------------------------------------------

#[test]
fn query_without_leading_from_is_rejected() {
    let r = expand_tokens(&tokenize("where x > 1\nfrom x in xs\nselect x"));
    assert_eq!(kind(r.unwrap_err()), ParseError::ExpectedFrom);
    assert_eq!(ParseError::ExpectedFrom.message(), "expected `from`");
    assert_eq!(message_of("where x > 1\nfrom x in xs\nselect x"), "expected `from`, found `where`");
    assert_eq!(message_of("( x ) from x in xs select x"), "expected `from`");
    assert_eq!(message_of(""), "expected `from`");
}

#[test]
fn query_without_select_is_rejected() {
    let r = expand_tokens(&tokenize("from x in xs\nwhere x > 1"));
    assert_eq!(kind(r.unwrap_err()), ParseError::ExpectedClause);
}

#[test]
fn join_condition_must_be_an_equality() {
    let r = expand_tokens(&tokenize("from a in xs\njoin b in ys on a.k > b.k\nselect a.k"));
    let e = r.unwrap_err();
    assert_eq!(kind(e), ParseError::JoinNotEquality);
    assert_eq!(
        message_of("from a in xs\njoin b in ys on a.k > b.k\nselect a.k"),
        "`join` requires an equality condition of the form `on a == b`"
    );
}

#[test]
fn join_condition_with_two_equalities_is_rejected() {
    let r = expand_tokens(&tokenize("from a in xs\njoin b in ys on a.k == b.k && a.j == b.j\nselect a.k"));
    assert_eq!(kind(r.unwrap_err()), ParseError::JoinNotEquality);
}

#[test]
fn select_must_be_last() {
    let r = expand_tokens(&tokenize("from x in xs\nselect x\nwhere x > 1"));
    let e = r.unwrap_err();
    assert_eq!(kind(e), ParseError::TrailingTokens);
    assert_eq!(
        message_of("from x in xs\nselect x\nwhere x > 1"),
        "unexpected tokens after `select`; `select` must be the last clause"
    );
}

#[test]
fn unbalanced_delimiters_are_rejected() {
    let r = expand_tokens(&tokenize("from x in (xs\nselect x"));
    assert_eq!(kind(r.unwrap_err()), ParseError::Unbalanced);
}

#[test]
fn let_needs_an_equals_sign() {
    let r = expand_tokens(&tokenize("from x in xs\nlet y x\nselect y"));
    assert_eq!(kind(r.unwrap_err()), ParseError::ExpectedEq);
}

#[test]
fn group_needs_by_and_into() {
    let r = expand_tokens(&tokenize("from x in xs\ngroup x into g\nselect g"));
    assert_eq!(kind(r.unwrap_err()), ParseError::ExpectedBy);
    assert_eq!(message_of("from x in xs\ngroup x into g\nselect g"), "expected `by`, found `into`");
    let r = expand_tokens(&tokenize("from x in xs\ngroup x by x\nselect x"));
    assert_eq!(kind(r.unwrap_err()), ParseError::ExpectedInto);
    assert_eq!(message_of("from x in xs\ngroup x by x\nselect x"), "expected `into`, found `select`");
    assert_eq!(message_of("from x in xs\ngroup x by x"), "expected `into`");
    assert_eq!(
        message_of("from a in xs\njoin b in ys limit on a == b\nselect a"),
        "expected `on`, found `limit`"
    );
}

#[test]
fn from_pattern_must_be_an_identifier() {
    let r = expand_tokens(&tokenize("from (a, b) in xs\nselect a"));
    let e = r.unwrap_err();
    assert_eq!(e, ExpandError::FromPattern { at: 1 });
    assert_eq!(
        message_of("from (a, b) in xs\nselect a"),
        "`from` requires a plain identifier pattern. Use `let` inside the query body for destructuring."
    );
    assert!(expand_tokens(&tokenize("from _ in xs\nselect 1")).is_err());
}

#[test]
fn from_pattern_may_carry_ref_and_mut() {
    assert_eq!(from_binding(&tokenize("mut x")), Some("x".to_string()));
    assert_eq!(from_binding(&tokenize("ref mut y")), Some("y".to_string()));
    assert_eq!(from_binding(&tokenize("z @ Some(_)")), Some("z".to_string()));
    assert_eq!(from_binding(&tokenize("(a, b)")), None);
    assert!(expand_tokens(&tokenize("from mut x in xs\nselect x")).is_ok());
}

// --- parsing and planning ------------------------------------------------------

#[test]
fn parse_keeps_clauses_in_order() {
    let q = parse_query(&tokenize(
        "from o in orders\nlet t = o.a + o.b\nwhere t > 1\norderby t desc\njoin_left c in cs on o.k == c.k\nzip z in zs\ngroup o by c into g\nselect g.key",
    ))
    .unwrap();
    assert_eq!(q.middle.len(), 6);
    match &q.middle[2] {
        oql::ast::MiddleClause::OrderBy { descending, .. } => assert!(*descending),
        _ => panic!("expected orderby"),
    }
    match &q.middle[3] {
        oql::ast::MiddleClause::Join(j) => {
            assert_eq!(j.kind, JoinKind::Left);
            assert_eq!(words(&j.outer_key.toks), vec!["o", ".", "k"]);
            assert_eq!(words(&j.inner_key.toks), vec!["c", ".", "k"]);
        }
        _ => panic!("expected join"),
    }
}

#[test]
fn lets_run_inside_the_next_stage() {
    let q = parse_query(&tokenize("from x in xs\nlet y = x * 2\nwhere y > 2\norderby y desc\nselect y")).unwrap();
    let p = plan_query(&q, &"x".to_string());
    assert_eq!(p.stages.len(), 3);
    assert!(matches!(p.stages[0].op, StageOp::Where { clause: 1 }));
    assert_eq!(p.stages[0].lets.len(), 1);
    assert_eq!(names_of(&p.stages[0].incoming), vec!["x"]);
    assert_eq!(names_of(&p.stages[0].outgoing), vec!["y"]);
    match &p.stages[1].op {
        StageOp::Sort { keys } => assert_eq!(keys, &vec![2]),
        _ => panic!("expected a sort"),
    }
    assert!(matches!(p.stages[2].op, StageOp::Select));
}

#[test]
fn consecutive_orderbys_merge_into_one_sort() {
    let q = parse_query(&tokenize("from p in ps\norderby p.0\norderby p.1 desc\nselect p")).unwrap();
    let p = plan_query(&q, &"p".to_string());
    assert_eq!(p.stages.len(), 2);
    match &p.stages[0].op {
        StageOp::Sort { keys } => assert_eq!(keys, &vec![0, 1]),
        _ => panic!("expected a sort"),
    }
}

#[test]
fn where_after_join_is_fused_when_it_only_reads_the_row() {
    let q = parse_query(&tokenize("from a in aa\njoin b in bb on a.k == b.k\nwhere b.flag\nselect a.k")).unwrap();
    let p = plan_query(&q, &"a".to_string());
    assert_eq!(p.stages.len(), 2);
    assert!(matches!(p.stages[0].op, StageOp::Join { clause: 0, counter: 0, fused: Some(1) }));
    assert_eq!(names_of(&p.stages[0].outgoing), vec!["a"]);
}

#[test]
fn where_after_join_reading_a_capture_is_not_fused() {
    let q = parse_query(&tokenize("from a in aa\njoin b in bb on a.k == b.k\nwhere calls.get() > b.n\nselect a.k")).unwrap();
    let p = plan_query(&q, &"a".to_string());
    assert_eq!(p.stages.len(), 3);
    assert!(matches!(p.stages[0].op, StageOp::Join { fused: None, .. }));
    assert!(matches!(p.stages[1].op, StageOp::Where { clause: 1 }));
}

#[test]
fn left_joins_are_never_fused() {
    let q = parse_query(&tokenize("from a in aa\njoin_left b in bb on a.k == b.k\nwhere b.is_some()\nselect a.k")).unwrap();
    let p = plan_query(&q, &"a".to_string());
    assert_eq!(p.stages.len(), 3);
}

#[test]
fn group_by_keeps_only_the_group() {
    let q = parse_query(&tokenize("from n in ns\nlet m = n * 2\ngroup m by n % 2 into g\nselect g.key")).unwrap();
    let p = plan_query(&q, &"n".to_string());
    assert_eq!(p.stages.len(), 2);
    assert!(matches!(p.stages[0].op, StageOp::GroupBy { clause: 1 }));
    assert_eq!(names_of(&p.stages[0].outgoing), vec!["g"]);
}

#[test]
fn dead_bindings_are_dropped() {
    let q = parse_query(&tokenize("from x in xs\nlet a = x + 1\nwhere a > 2\nselect a")).unwrap();
    let live = compute_live_after(&q);
    assert_eq!(set_of(&live[0]), vec!["a".to_string()]);
    assert_eq!(set_of(&live[1]), vec!["a".to_string()]);
    assert_eq!(live[2].len(), 0);
    let p = plan_query(&q, &"x".to_string());
    assert_eq!(names_of(&p.stages[0].incoming), vec!["x"]);
    assert_eq!(names_of(&p.stages[0].outgoing), vec!["a"]);
}

#[test]
fn identifier_scans() {
    let toks = tokenize("a.b + c::d(e)");
    assert_eq!(set_of(&idents_in_tokens(&toks)), vec!["a", "b", "c", "d", "e"]);
    assert_eq!(set_of(&bare_idents(&toks)), vec!["a", "c", "e"]);
}

// --- code generation -----------------------------------------------------------

#[test]
fn left_join_fields_read_as_options() {
    let mut opts = NameSet::new();
    opts.insert("c".to_string());
    let mut out = Vec::new();
    rewrite_into(&mut out, &tokenize("c.name.unwrap_or(x) + c.clone().n + y.c.z"), &opts);
    assert_eq!(
        words(&out).join(" "),
        words(&tokenize(
            "(c.as_ref().map(|__oql_v| ::core::clone::Clone::clone(&__oql_v.name))).unwrap_or(x) + c.clone().n + y.c.z"
        ))
        .join(" ")
    );
}

#[test]
fn join_maps_are_numbered_in_order() {
    let mut text = String::from("from a in xs\n");
    for i in 0..11 {
        text.push_str(&format!("join b{i} in ys on a.k == b{i}.k\n"));
    }
    text.push_str("select a");
    let out = words(&expand_tokens(&tokenize(&text)).unwrap());
    assert!(out.contains(&"__oql_join_map_0".to_string()));
    assert!(out.contains(&"__oql_join_map_9".to_string()));
    assert!(out.contains(&"__oql_join_map_10".to_string()));
    assert!(!out.contains(&"__oql_join_map_11".to_string()));
}

#[test]
fn expand_rejects_only_the_from_pattern() {
    let q = parse_query(&tokenize("from [a, b] in xs\nselect a")).unwrap();
    assert_eq!(expand(&q).unwrap_err(), ExpandError::FromPattern { at: 1 });
    let q = parse_query(&tokenize("from a in xs\nselect a")).unwrap();
    assert!(expand(&q).is_ok());
}

#[test]
fn tokenizer_marks_joined_punctuation() {
    let t = tokenize("a == b::c \"s p\" 12u8");
    assert!(matches!(t[1], Tok::Punct('=', true)));
    assert!(matches!(t[2], Tok::Punct('=', false)));
    assert!(matches!(t[4], Tok::Punct(':', true)));
    assert!(matches!(t[5], Tok::Punct(':', false)));
    assert_eq!(words(&t), vec!["a", "=", "=", "b", ":", ":", "c", "\"s p\"", "12u8"]);
}

// --- run-time helpers ----------------------------------------------------------

#[test]
fn sort_and_strip_is_stable() {
    let v = vec![(2, 'a'), (1, 'b'), (2, 'c'), (1, 'd'), (0, 'e')];
    assert_eq!(v.__oql_sort_and_strip(), vec!['e', 'b', 'd', 'a', 'c']);
    let w = vec![(std::cmp::Reverse(1), "x"), (std::cmp::Reverse(3), "y"), (std::cmp::Reverse(2), "z")];
    assert_eq!(w.__oql_sort_and_strip(), vec!["y", "z", "x"]);
}

#[test]
fn join_matches_yield_in_order() {
    let mut m = JoinMatches::many(vec![1, 2, 3]);
    assert_eq!(m.size_hint(), (3, Some(3)));
    assert_eq!(m.next(), Some(1));
    assert_eq!(m.next(), Some(2));
    assert_eq!(m.size_hint(), (1, Some(1)));
    assert_eq!(m.next(), Some(3));
    assert_eq!(m.next(), None);
    let mut one = JoinMatches::Once(Some("x"));
    assert_eq!(one.size_hint(), (1, Some(1)));
    assert_eq!(one.next(), Some("x"));
    assert_eq!(one.next(), None);
    let mut none: JoinMatches<u8> = JoinMatches::Empty;
    assert_eq!(none.size_hint(), (0, Some(0)));
    assert_eq!(none.next(), None);
}

#[test]
fn zip_must_step_cases() {
    assert_eq!(zip_must_step(Some(1), Some('a')), Ok(Some((1, 'a'))));
    assert_eq!(zip_must_step::<u8, char>(None, None), Ok(None));
    assert_eq!(zip_must_step::<u8, char>(Some(1), None), Err(ZipLengthMismatch));
    assert_eq!(zip_must_step::<u8, char>(None, Some('b')), Err(ZipLengthMismatch));
    assert_eq!(ZipLengthMismatch.message(), "oql zip sources have different lengths");
}

#[test]
fn group_holds_key_and_items() {
    let g = Group { key: "A", items: vec![1, 2] };
    let h = g.clone();
    assert_eq!(h.key, "A");
    assert_eq!(h.items.iter().sum::<i32>(), 3);
}

#[test]
fn name_set_operations() {
    let mut s = NameSet::new();
    s.insert("a".to_string());
    s.insert("b".to_string());
    s.insert("a".to_string());
    assert_eq!(s.len(), 2);
    assert!(s.contains(&"b".to_string()));
    s.remove(&"a".to_string());
    assert!(!s.contains(&"a".to_string()));
    let mut t = NameSet::new();
    t.insert("c".to_string());
    s.extend(&t);
    assert_eq!(set_of(&s), vec!["b".to_string(), "c".to_string()]);
}

#[test]
fn desc_is_a_direction_not_part_of_the_key() {
    let q = parse_query(&tokenize("from x in xs\norderby x desc\nselect x")).unwrap();
    match &q.middle[0] {
        oql::ast::MiddleClause::OrderBy { key, descending, spelled } => {
            assert_eq!(words(&key.toks), vec!["x"]);
            assert!(*descending);
            assert!(*spelled);
        }
        _ => panic!("expected orderby"),
    }
}

#[test]
fn fields_are_copied_verbatim_without_left_joins() {
    let out = words(&expand_tokens(&tokenize("from c in cs\nwhere c.ok\nselect c.name")).unwrap());
    assert!(!out.contains(&"as_ref".to_string()));
    let out = words(&expand_tokens(&tokenize("from o in os\njoin_left c in cs on o.k == c.k\nselect c.name")).unwrap());
    assert!(out.contains(&"as_ref".to_string()));
}

#[test]
fn shadowing_let_is_flagged() {
    let q = parse_query(&tokenize("from x in xs\nlet x = x * 10\nlet y = x\nselect x")).unwrap();
    let p = plan_query(&q, &"x".to_string());
    assert_eq!(p.stages.len(), 1);
    let lets = &p.stages[0].lets;
    assert_eq!(lets.len(), 2);
    assert!(lets[0].live && lets[0].shadow);
    assert!(!lets[1].live && !lets[1].shadow);
}

#[test]
fn group_join_counts_as_a_join_map() {
    let text = "from c in cs\njoin o in os on c.id == o.cid into g\njoin d in ds on c.id == d.cid\nselect (c, g, d)";
    let out = words(&expand_tokens(&tokenize(text)).unwrap());
    assert!(out.contains(&"__oql_gjoin_map_0".to_string()));
    assert!(out.contains(&"__oql_join_map_1".to_string()));
}

#[test]
fn missing_in_is_reported_where_it_is_missing() {
    let e = expand_tokens(&tokenize("from x xs\nselect x")).unwrap_err();
    assert_eq!(kind(e), ParseError::ExpectedIn);
    assert_eq!(message_of("from x xs\nselect x"), "expected `in` after pattern in `from` clause");
    let e = expand_tokens(&tokenize("from a in xs\njoin b ys on a == b\nselect a")).unwrap_err();
    assert_eq!(kind(e), ParseError::ExpectedInAfterName { zip: false });
    assert_eq!(message_of("from a in xs\njoin b ys on a == b\nselect a"), "expected `in` after name in `join` clause");
    let e = expand_tokens(&tokenize("from a in xs\nzip b ys\nselect a")).unwrap_err();
    assert_eq!(kind(e), ParseError::ExpectedInAfterName { zip: true });
    let e = expand_tokens(&tokenize("from a in xs\nlet = 1\nselect a")).unwrap_err();
    assert_eq!(kind(e), ParseError::ExpectedName);
    assert_eq!(message_of("from a in xs\nlet = 1\nselect a"), "expected identifier");
}

// --- token trees ---------------------------------------------------------------

#[test]
fn trees_flatten_and_build_back() {
    let trees = vec![
        TokTree::Ident("f".to_string(), 1),
        TokTree::Group(
            Delim::Paren,
            vec![
                TokTree::Lit("1".to_string(), 3),
                TokTree::Punct(',', false, 4),
                TokTree::Group(Delim::Bracket, vec![], 5, 6),
            ],
            2,
            7,
        ),
        TokTree::Punct('?', false, 8),
    ];
    let (flat, at) = flatten(&trees);
    assert_eq!(words(&flat), vec!["f", "(", "1", ",", "[", "]", ")", "?"]);
    assert_eq!(at, vec![1, 2, 3, 4, 5, 6, 7, 8]);
    let back = build(&flat, &at).unwrap();
    let (flat2, at2) = flatten(&back);
    assert_eq!(words(&flat2), words(&flat));
    assert_eq!(at2, at);
    assert_eq!(back.len(), 3);
    match &back[1] {
        TokTree::Group(Delim::Paren, inner, 2, 7) => assert_eq!(inner.len(), 3),
        other => panic!("expected a parenthesised group, got {:?}", other),
    }
}

fn build_plain(toks: &[Tok]) -> Option<Vec<TokTree>> {
    let toks = toks.to_vec();
    let at = vec![0u32; toks.len()];
    build(&toks, &at)
}

#[test]
fn build_rejects_unmatched_delimiters() {
    assert!(build_plain(&tokenize("a ( b ]")).is_none());
    assert!(build_plain(&tokenize("a ) b")).is_none());
    assert!(build_plain(&tokenize("( a")).is_none());
    assert!(build_plain(&tokenize("")).unwrap().is_empty());
    assert_eq!(build_plain(&tokenize("{ x } y")).unwrap().len(), 2);
}

// --- expression extents ---------------------------------------------------------

#[test]
fn a_word_after_a_complete_operand_ends_the_expression() {
    let r = expand_tokens(&tokenize("from x in xs limit 3 select x"));
    assert_eq!(kind(r.unwrap_err()), ParseError::ExpectedClause);
    let r = expand_tokens(&tokenize("from x in xs where x > 1 limit 3 select x"));
    assert_eq!(kind(r.unwrap_err()), ParseError::ExpectedClause);
    let r = expand_tokens(&tokenize("from x in xs select x limit 3"));
    assert_eq!(kind(r.unwrap_err()), ParseError::TrailingTokens);
    let r = expand_tokens(&tokenize("from c in cs join o in os limit on c.id == o.id select c"));
    assert_eq!(kind(r.unwrap_err()), ParseError::ExpectedOn);
}

#[test]
fn keywords_continue_the_expression() {
    let q = parse_query(&tokenize(
        "from x in xs where if let Some(v) = x { v > 1 } else { false } select x as u32",
    ))
    .unwrap();
    assert_eq!(q.middle.len(), 1);
    assert_eq!(words(&q.select.expr.toks), vec!["x", "as", "u32"]);
    let q = parse_query(&tokenize("from x in match y { _ => xs } select return x")).unwrap();
    assert_eq!(q.middle.len(), 0);
}

#[test]
fn join_condition_needs_equality_at_the_top() {
    for cond in ["|x| x == 1", "a..b == c", "a == b..c", "a != b", "x = a == b", "return a == b", "a <= b"] {
        let text = format!("from a in xs join b in ys on {} select a", cond);
        let r = expand_tokens(&tokenize(&text));
        assert_eq!(kind(r.unwrap_err()), ParseError::JoinNotEquality, "{}", cond);
    }
    for cond in ["(a.x, a.y) == (b.x, b.y)", "a | b == c", "a == (|x| x)(b)", "f(a..b) == c"] {
        let text = format!("from a in xs join b in ys on {} select a", cond);
        assert!(parse_query(&tokenize(&text)).is_ok(), "{}", cond);
    }
}

// --- error positions -------------------------------------------------------------

#[test]
fn errors_point_at_the_offending_token() {
    // where x > 1 from x in xs select x: the first token is not `from`.
    assert_eq!(at(expand_tokens(&tokenize("where x > 1 from x in xs select x")).unwrap_err()), 0);
    // from x in xs limit 3 select x: `limit` is token 4.
    let e = expand_tokens(&tokenize("from x in xs limit 3 select x")).unwrap_err();
    assert_eq!((kind(e), at(e)), (ParseError::ExpectedClause, 4));
    // from x in xs select x where x > 1: the trailing `where` is token 6.
    let e = expand_tokens(&tokenize("from x in xs select x where x > 1")).unwrap_err();
    assert_eq!((kind(e), at(e)), (ParseError::TrailingTokens, 6));
    // from x in xs where x > 1: the query ends where a clause was expected.
    let e = expand_tokens(&tokenize("from x in xs where x > 1")).unwrap_err();
    assert_eq!((kind(e), at(e)), (ParseError::ExpectedClause, 8));
    // a closing delimiter that closes nothing, and one group left open.
    let e = expand_tokens(&tokenize("from x in xs ) select x")).unwrap_err();
    assert_eq!((kind(e), at(e)), (ParseError::Unbalanced, 4));
    let e = expand_tokens(&tokenize("from x in ( xs select x")).unwrap_err();
    assert_eq!((kind(e), at(e)), (ParseError::Unbalanced, 7));
    // the join condition is reported at its first token.
    let e = expand_tokens(&tokenize("from a in xs join b in ys on a.k > b.k select a")).unwrap_err();
    assert_eq!((kind(e), at(e)), (ParseError::JoinNotEquality, 9));
    // a pattern that is not an identifier is reported at the pattern.
    let e = expand_tokens(&tokenize("from (a, b) in pairs select a + b")).unwrap_err();
    assert_eq!(at(e), 1);
}

#[test]
fn every_error_names_its_token() {
    let cases: [(&str, ParseError, usize); 12] = [
        ("from in xs select x", ParseError::ExpectedExpression, 1),
        ("from x xs select x", ParseError::ExpectedIn, 5),
        ("from x in xs where x +", ParseError::ExpectedExpression, 6),
        ("from x in xs let y = 1 select", ParseError::ExpectedExpression, 9),
        ("from x in xs let = 1 select x", ParseError::ExpectedName, 5),
        ("from x in xs let y 1 select x", ParseError::ExpectedEq, 6),
        ("from x in xs zip y ys select x", ParseError::ExpectedInAfterName { zip: true }, 6),
        ("from x in xs join y in ys select x", ParseError::ExpectedOn, 8),
        ("from x in xs join y in ys on x.k == y.k into", ParseError::ExpectedName, 18),
        ("from x in xs group x by x into", ParseError::ExpectedName, 9),
        ("from x in xs group x x select x", ParseError::ExpectedBy, 6),
        ("from x in xs limit 3", ParseError::ExpectedClause, 4),
    ];
    for (text, k, a) in cases {
        let e = expand_tokens(&tokenize(text)).unwrap_err();
        assert_eq!((kind(e), at(e)), (k, a), "{}", text);
    }
}
