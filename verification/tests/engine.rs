//! End-to-end tests of the query engine: ingestion, planning,
//! execution, aggregation and the limit/offset window.

use colquery::column::{Batch, ColData, Column, IntegerColumn, StringColumn};
use colquery::expr::{Aggregator, Expr, FuncType, LimitClause};
use colquery::ingest::{auto_ingest, is_numeric, parse_int, ColType, RawCol};
use colquery::planner::PlanError;
use colquery::query::{find_all_cols, Query};
use colquery::store::Store;
use colquery::parser::{
    construct_query, create_sql_identifier, is_ident_char, is_ident_start_char, AggregateOrSelect,
};
use colquery::scratchpad::{BufferRef, Scratchpad};
use colquery::typed_vec::TypedVec;
use colquery::val::RawVal;
use colquery::vector_op::{execute_plan, VecConstBoolOperator, VecOp};

fn int_col(name: &str, vals: &[i64]) -> Column {
    let min = vals.iter().copied().min().unwrap_or(0);
    let max = vals.iter().copied().max().unwrap_or(0);
    Column {
        name: name.to_string(),
        data: IntegerColumn::new(vals.to_vec(), min, max),
    }
}

fn str_col(name: &str, vals: &[&str]) -> Column {
    let owned: Vec<String> = vals.iter().map(|s| s.to_string()).collect();
    Column {
        name: name.to_string(),
        data: ColData::Str(StringColumn::from_values(&owned)),
    }
}

fn col(name: &str) -> Expr {
    Expr::ColName(name.to_string())
}

fn lit(v: i64) -> Expr {
    Expr::Const(colquery::val::ValueType::Integer(v))
}

fn strv(s: &str) -> Expr {
    Expr::Const(colquery::val::ValueType::Str(s.to_string()))
}

fn truth(b: bool) -> Expr {
    Expr::Const(colquery::val::ValueType::Bool(b))
}

fn func(f: FuncType, l: Expr, r: Expr) -> Expr {
    Expr::Func(f, Box::new(l), Box::new(r))
}

fn no_limit() -> LimitClause {
    LimitClause { limit: u64::MAX, offset: 0 }
}

fn query(select: Vec<Expr>, filter: Expr, aggregate: Vec<(Aggregator, Expr)>) -> Query {
    Query {
        select,
        table: "t".to_string(),
        filter,
        aggregate,
        order_by: None,
        limit: no_limit(),
    }
}

fn run(q: &Query, batches: &Vec<Batch>) -> colquery::query::QueryResult {
    let mut compiled = q.compile(batches);
    compiled.run().expect("query should plan")
}

fn table_t() -> Vec<Batch> {
    vec![Batch {
        cols: vec![int_col("a", &[1, 2, 3]), int_col("b", &[10, 20, 30])],
    }]
}

#[test]
fn select_add_filter() {
    let batches = table_t();
    let q = query(
        vec![col("a"), func(FuncType::Add, col("a"), col("b"))],
        func(FuncType::GT, col("b"), lit(15)),
        vec![],
    );
    let res = run(&q, &batches);
    assert_eq!(res.colnames, vec!["a".to_string(), "col_0".to_string()]);
    assert_eq!(
        res.rows,
        vec![
            vec![RawVal::Int(2), RawVal::Int(22)],
            vec![RawVal::Int(3), RawVal::Int(33)],
        ]
    );
}

#[test]
fn count_and_sum() {
    let batches = table_t();
    let q = query(
        vec![],
        truth(true),
        vec![(Aggregator::Count, col("a")), (Aggregator::Sum, col("b"))],
    );
    let res = run(&q, &batches);
    assert_eq!(res.colnames, vec!["count_0".to_string(), "sum_0".to_string()]);
    assert_eq!(res.rows, vec![vec![RawVal::Int(3), RawVal::Int(60)]]);
}

#[test]
fn group_by_city_across_batches() {
    let b1 = Batch {
        cols: vec![str_col("city", &["NYC", "SF"]), int_col("age", &[30, 25])],
    };
    let b2 = Batch {
        cols: vec![str_col("city", &["NYC"]), int_col("age", &[40])],
    };
    let batches = vec![b1, b2];
    let q = query(
        vec![col("city")],
        truth(true),
        vec![(Aggregator::Count, col("age")), (Aggregator::Sum, col("age"))],
    );
    let res = run(&q, &batches);
    assert_eq!(
        res.colnames,
        vec!["city".to_string(), "count_0".to_string(), "sum_0".to_string()]
    );
    assert_eq!(res.rows.len(), 2);
    assert!(res.rows.contains(&vec![
        RawVal::Str("NYC".to_string()),
        RawVal::Int(2),
        RawVal::Int(70)
    ]));
    assert!(res.rows.contains(&vec![
        RawVal::Str("SF".to_string()),
        RawVal::Int(1),
        RawVal::Int(25)
    ]));
}

#[test]
fn group_by_two_columns() {
    let b1 = Batch {
        cols: vec![
            str_col("city", &["NYC", "NYC", "SF"]),
            str_col("dept", &["eng", "ops", "eng"]),
            int_col("age", &[30, 40, 25]),
        ],
    };
    let b2 = Batch {
        cols: vec![
            str_col("city", &["NYC"]),
            str_col("dept", &["eng"]),
            int_col("age", &[20]),
        ],
    };
    let q = query(
        vec![col("city"), col("dept")],
        truth(true),
        vec![(Aggregator::Count, col("age")), (Aggregator::Sum, col("age"))],
    );
    let res = run(&q, &vec![b1, b2]);
    assert_eq!(
        res.colnames,
        vec![
            "city".to_string(),
            "dept".to_string(),
            "count_0".to_string(),
            "sum_0".to_string()
        ]
    );
    assert_eq!(res.rows.len(), 3);
    assert!(res.rows.contains(&vec![
        RawVal::Str("NYC".to_string()),
        RawVal::Str("eng".to_string()),
        RawVal::Int(2),
        RawVal::Int(50)
    ]));
    assert!(res.rows.contains(&vec![
        RawVal::Str("NYC".to_string()),
        RawVal::Str("ops".to_string()),
        RawVal::Int(1),
        RawVal::Int(40)
    ]));
    assert!(res.rows.contains(&vec![
        RawVal::Str("SF".to_string()),
        RawVal::Str("eng".to_string()),
        RawVal::Int(1),
        RawVal::Int(25)
    ]));
}

#[test]
fn group_by_expression() {
    let batch = Batch {
        cols: vec![int_col("a", &[1, 1, 2]), int_col("b", &[5, 6, 7])],
    };
    let q = query(
        vec![func(FuncType::Add, col("a"), lit(10))],
        truth(true),
        vec![(Aggregator::Count, col("b")), (Aggregator::Sum, col("b"))],
    );
    let res = run(&q, &vec![batch]);
    assert_eq!(res.rows.len(), 2);
    assert!(res.rows.contains(&vec![RawVal::Int(11), RawVal::Int(2), RawVal::Int(11)]));
    assert!(res.rows.contains(&vec![RawVal::Int(12), RawVal::Int(1), RawVal::Int(7)]));
}

#[test]
fn aggregate_order_of_batches_is_irrelevant() {
    let b1 = || Batch {
        cols: vec![str_col("city", &["NYC", "SF"]), int_col("age", &[30, 25])],
    };
    let b2 = || Batch {
        cols: vec![str_col("city", &["NYC"]), int_col("age", &[40])],
    };
    let q = query(
        vec![col("city")],
        truth(true),
        vec![(Aggregator::Sum, col("age"))],
    );
    let fwd = run(&q, &vec![b1(), b2()]);
    let rev = run(&q, &vec![b2(), b1()]);
    let mut fwd_rows = fwd.rows;
    let mut rev_rows = rev.rows;
    fwd_rows.sort_by_key(|r| format!("{:?}", r));
    rev_rows.sort_by_key(|r| format!("{:?}", r));
    assert_eq!(fwd_rows, rev_rows);
}

#[test]
fn encoded_equality_stays_encoded() {
    // a column ingested as u8 codes over offset 1
    let batch = Batch {
        cols: vec![int_col("a", &[1, 2, 3])],
    };
    match &batch.cols[0].data {
        ColData::Off8 { codes, offset } => {
            assert_eq!(*offset, 1);
            assert_eq!(codes, &vec![0u8, 1, 2]);
        }
        _ => panic!("expected u8 offset encoding"),
    }
    // the plan compares raw codes and never decodes
    let filter = func(FuncType::Equals, col("a"), lit(2));
    let mut ops: Vec<colquery::vector_op::VecOp> = Vec::new();
    let slot = colquery::planner::compile_expr(&filter, &batch, false, None, &mut ops)
        .expect("plannable");
    assert!(slot.idx < ops.len());
    let mut saw_code_compare = false;
    for op in &ops {
        match op {
            colquery::vector_op::VecOp::Decode { .. } => panic!("plan decodes the column"),
            colquery::vector_op::VecOp::EqualsCodeVS(_) => saw_code_compare = true,
            _ => {}
        }
    }
    assert!(saw_code_compare);
    // and the query produces the matching row
    let q = query(vec![col("a")], filter, vec![]);
    let res = run(&q, &vec![batch]);
    assert_eq!(res.rows, vec![vec![RawVal::Int(2)]]);
}

#[test]
fn limit_offset_across_batches() {
    let batches = vec![
        Batch { cols: vec![int_col("a", &[1])] },
        Batch { cols: vec![int_col("a", &[2])] },
        Batch { cols: vec![int_col("a", &[3])] },
    ];
    let mut q = query(vec![col("a")], truth(true), vec![]);
    q.limit = LimitClause { limit: 2, offset: 1 };
    let res = run(&q, &batches);
    assert_eq!(res.rows, vec![vec![RawVal::Int(2)], vec![RawVal::Int(3)]]);
}

#[test]
fn regex_filter_in_scan_order() {
    let batch = Batch {
        cols: vec![str_col("name", &["Al", "Bo", "An"])],
    };
    let q = query(
        vec![col("name")],
        func(FuncType::RegexMatch, col("name"), strv("^A.*")),
        vec![],
    );
    let res = run(&q, &vec![batch]);
    assert_eq!(
        res.rows,
        vec![
            vec![RawVal::Str("Al".to_string())],
            vec![RawVal::Str("An".to_string())],
        ]
    );
}

#[test]
fn empty_batch_list() {
    let q = query(vec![col("a")], truth(true), vec![]);
    let res = run(&q, &vec![]);
    assert!(res.rows.is_empty());
    assert_eq!(res.stats.rows_scanned, 0);
    assert_eq!(res.stats.ops, 0);
}

#[test]
fn stats_count_scanned_batches() {
    let batches = vec![
        Batch { cols: vec![int_col("a", &[1, 2])] },
        Batch { cols: vec![int_col("a", &[3])] },
        Batch { cols: vec![int_col("a", &[4])] },
    ];
    // a full window stops the scan after the first batch
    let mut q = query(vec![col("a")], truth(true), vec![]);
    q.limit = LimitClause { limit: 2, offset: 0 };
    let res = run(&q, &batches);
    assert_eq!(res.stats.ops, 1);
    assert_eq!(res.stats.rows_scanned, 2);
    // an unbounded query reads everything
    let q2 = query(vec![col("a")], truth(true), vec![]);
    let res2 = run(&q2, &batches);
    assert_eq!(res2.stats.ops, 3);
    assert_eq!(res2.stats.rows_scanned, 4);
    // aggregation always reads everything
    let qa = query(vec![], truth(true), vec![(Aggregator::Count, col("a"))]);
    let resa = run(&qa, &batches);
    assert_eq!(resa.stats.ops, 3);
    assert_eq!(resa.stats.rows_scanned, 4);
}

#[test]
fn referenced_cols_are_distinct() {
    let q = query(
        vec![col("a"), col("a")],
        func(FuncType::GT, col("a"), lit(0)),
        vec![(Aggregator::Sum, col("a"))],
    );
    let refs = q.find_referenced_cols();
    assert_eq!(refs, vec!["a".to_string()]);
}

#[test]
fn filter_matching_zero_rows() {
    let batches = table_t();
    let q = query(vec![col("a")], func(FuncType::GT, col("a"), lit(100)), vec![]);
    let res = run(&q, &batches);
    assert!(res.rows.is_empty());
    // scalar aggregators return their identities
    let qa = query(
        vec![],
        func(FuncType::GT, col("a"), lit(100)),
        vec![(Aggregator::Count, col("a")), (Aggregator::Sum, col("a"))],
    );
    let res = run(&qa, &table_t());
    assert_eq!(res.rows, vec![vec![RawVal::Int(0), RawVal::Int(0)]]);
}

#[test]
fn offset_beyond_all_rows() {
    let batches = table_t();
    let mut q = query(vec![col("a")], truth(true), vec![]);
    q.limit = LimitClause { limit: 10, offset: 5 };
    let res = run(&q, &batches);
    assert!(res.rows.is_empty());
}

#[test]
fn encoding_round_trip() {
    // every ingested value decodes back unchanged, for each width
    for vals in [
        vec![1i64, 2, 3],
        vec![-5, 250, 100],
        vec![0, 70000, 35000],
        vec![i64::MIN, i64::MAX, 0],
    ] {
        let batch = Batch { cols: vec![int_col("a", &vals)] };
        let q = query(vec![col("a")], truth(true), vec![]);
        let res = run(&q, &vec![batch]);
        let expected: Vec<Vec<RawVal>> = vals.iter().map(|v| vec![RawVal::Int(*v)]).collect();
        assert_eq!(res.rows, expected);
    }
}

#[test]
fn narrowest_width_is_selected() {
    let cases: [(&[i64], fn(&ColData) -> bool); 4] = [
        (&[100, 355][..], |d| matches!(d, ColData::Off8 { .. })),
        (&[0, 60000][..], |d| matches!(d, ColData::Off16 { .. })),
        (&[-1, 70000][..], |d| matches!(d, ColData::Off32 { .. })),
        (&[0, 5_000_000_000][..], |d| matches!(d, ColData::Plain(_))),
    ];
    for (vals, check) in cases {
        let c = int_col("a", vals);
        assert!(check(&c.data), "wrong width for {:?}", vals);
    }
}

#[test]
fn width_selection_after_ingestion() {
    let rows: Vec<Vec<String>> = vec![
        vec!["7".to_string()],
        vec!["200".to_string()],
    ];
    let batches = auto_ingest(&rows, &vec!["a".to_string()], 10);
    assert_eq!(batches.len(), 1);
    match &batches[0].cols[0].data {
        ColData::Off8 { offset, .. } => assert_eq!(*offset, 7),
        _ => panic!("expected the narrowest width"),
    }
}

#[test]
fn filter_composition_concrete() {
    // one conjunctive filter equals filtering twice
    let batches = table_t();
    let both = query(
        vec![col("a")],
        func(
            FuncType::And,
            func(FuncType::GT, col("a"), lit(1)),
            func(FuncType::LT, col("a"), lit(3)),
        ),
        vec![],
    );
    let res = run(&both, &batches);
    assert_eq!(res.rows, vec![vec![RawVal::Int(2)]]);
}

#[test]
fn boolean_or_and_constants() {
    let batches = table_t();
    let q = query(
        vec![col("a")],
        func(
            FuncType::Or,
            func(FuncType::Equals, col("a"), lit(1)),
            func(FuncType::Equals, col("a"), lit(3)),
        ),
        vec![],
    );
    let res = run(&q, &batches);
    assert_eq!(res.rows, vec![vec![RawVal::Int(1)], vec![RawVal::Int(3)]]);
    let qf = query(vec![col("a")], truth(false), vec![]);
    assert!(run(&qf, &batches).rows.is_empty());
}

#[test]
fn negate_and_add_constant() {
    let batches = table_t();
    let q = query(
        vec![
            func(FuncType::Negate, col("a"), Expr::Const(colquery::val::ValueType::Null)),
            func(FuncType::Add, col("a"), lit(100)),
        ],
        truth(true),
        vec![],
    );
    let res = run(&q, &batches);
    assert_eq!(res.colnames, vec!["col_0".to_string(), "col_1".to_string()]);
    assert_eq!(
        res.rows[0],
        vec![RawVal::Int(-1), RawVal::Int(101)]
    );
}

#[test]
fn string_equality_filter() {
    let batch = Batch {
        cols: vec![str_col("city", &["NYC", "SF", "NYC"]), int_col("age", &[1, 2, 3])],
    };
    let q = query(
        vec![col("age")],
        func(FuncType::Equals, col("city"), strv("NYC")),
        vec![],
    );
    let res = run(&q, &vec![batch]);
    assert_eq!(res.rows, vec![vec![RawVal::Int(1)], vec![RawVal::Int(3)]]);
}

#[test]
fn plan_errors() {
    let batches = table_t();
    let unknown = query(vec![col("missing")], truth(true), vec![]);
    match unknown.compile(&batches).run() {
        Err(PlanError::UnknownColumn(n)) => assert_eq!(n, "missing"),
        other => panic!("expected unknown column, got {:?}", other.map(|_| ())),
    }
    let b = Batch {
        cols: vec![str_col("s", &["x"])],
    };
    let sum_string = query(vec![], truth(true), vec![(Aggregator::Sum, col("s"))]);
    match sum_string.compile(&vec![b]).run() {
        Err(PlanError::TypeMismatch) => {}
        other => panic!("expected type mismatch, got {:?}", other.map(|_| ())),
    }
    // an invalid pattern over a string column is a regex error
    let bs = Batch {
        cols: vec![str_col("name", &["x"])],
    };
    let bad = query(
        vec![col("name")],
        func(FuncType::RegexMatch, col("name"), strv("(")),
        vec![],
    );
    match bad.compile(&vec![bs]).run() {
        Err(PlanError::BadRegex) => {}
        other => panic!("expected bad regex, got {:?}", other.map(|_| ())),
    }
    let col_eq_col = query(
        vec![col("a")],
        func(FuncType::Equals, col("a"), col("b")),
        vec![],
    );
    match col_eq_col.compile(&batches).run() {
        Err(PlanError::Unsupported) => {}
        other => panic!("expected unsupported, got {:?}", other.map(|_| ())),
    }
}

#[test]
fn parse_int_exactly() {
    assert_eq!(parse_int("42"), Some(42));
    assert_eq!(parse_int("-42"), Some(-42));
    assert_eq!(parse_int("+7"), Some(7));
    assert_eq!(parse_int("0"), Some(0));
    assert_eq!(parse_int(""), None);
    assert_eq!(parse_int("abc"), None);
    assert_eq!(parse_int("1.5"), None);
    assert_eq!(parse_int("9223372036854775807"), Some(i64::MAX));
    assert_eq!(parse_int("9223372036854775808"), None);
    assert_eq!(parse_int("-9223372036854775808"), Some(i64::MIN));
    assert_eq!(parse_int("-9223372036854775809"), None);
}

#[test]
fn ingestion_type_inference() {
    let rows: Vec<Vec<String>> = vec![
        vec!["1".to_string(), "NYC".to_string(), "".to_string()],
        vec!["2.75".to_string(), "SF".to_string(), "".to_string()],
    ];
    let names = vec!["n".to_string(), "city".to_string(), "empty".to_string()];
    let batches = auto_ingest(&rows, &names, 10);
    assert_eq!(batches.len(), 1);
    let b = &batches[0];
    assert!(matches!(
        b.cols[0].data,
        ColData::Off8 { .. } | ColData::Off16 { .. } | ColData::Off32 { .. } | ColData::Plain(_)
    ));
    assert!(matches!(b.cols[1].data, ColData::Str(_)));
    assert!(matches!(b.cols[2].data, ColData::Null(_)));
    // the numeric column holds 1 and the truncated 2
    let q = query(vec![col("n")], truth(true), vec![]);
    let res = run(&q, &batches);
    assert_eq!(res.rows, vec![vec![RawVal::Int(1)], vec![RawVal::Int(2)]]);
}

#[test]
fn ingestion_chunking() {
    let rows: Vec<Vec<String>> = (1..=5).map(|i| vec![i.to_string()]).collect();
    let batches = auto_ingest(&rows, &vec!["a".to_string()], 2);
    assert_eq!(batches.len(), 3);
    assert_eq!(batches[0].row_count(), 2);
    assert_eq!(batches[2].row_count(), 1);
}

#[test]
fn numeric_cells_with_exponents_and_words() {
    // exponent forms and the special words are numeric cells
    let rows: Vec<Vec<String>> = vec![
        vec!["1e5".to_string()],
        vec!["2.5e3".to_string()],
        vec!["1e-2".to_string()],
        vec!["-1.5E1".to_string()],
        vec!["12.75".to_string()],
    ];
    let batches = auto_ingest(&rows, &vec!["n".to_string()], 10);
    let q = query(vec![col("n")], truth(true), vec![]);
    let res = run(&q, &batches);
    assert_eq!(
        res.rows,
        vec![
            vec![RawVal::Int(100000)],
            vec![RawVal::Int(2500)],
            vec![RawVal::Int(0)],
            vec![RawVal::Int(-15)],
            vec![RawVal::Int(12)],
        ]
    );
}

#[test]
fn numeric_words_saturate() {
    let rows: Vec<Vec<String>> = vec![
        vec!["inf".to_string()],
        vec!["-inf".to_string()],
        vec!["Infinity".to_string()],
        vec!["NaN".to_string()],
        vec!["9e30".to_string()],
        vec!["-9e30".to_string()],
    ];
    let batches = auto_ingest(&rows, &vec!["n".to_string()], 10);
    let q = query(vec![col("n")], truth(true), vec![]);
    let res = run(&q, &batches);
    assert_eq!(
        res.rows,
        vec![
            vec![RawVal::Int(i64::MAX)],
            vec![RawVal::Int(i64::MIN)],
            vec![RawVal::Int(i64::MAX)],
            vec![RawVal::Int(0)],
            vec![RawVal::Int(i64::MAX)],
            vec![RawVal::Int(i64::MIN)],
        ]
    );
}

#[test]
fn numeric_grammar_edges() {
    assert!(is_numeric("1e5"));
    assert!(is_numeric("1.5e-3"));
    assert!(is_numeric(".5e1"));
    assert!(is_numeric("5.e1"));
    assert!(is_numeric("+inf"));
    assert!(is_numeric("-INFINITY"));
    assert!(is_numeric("nan"));
    assert!(!is_numeric("1e"));
    assert!(!is_numeric("1e+"));
    assert!(!is_numeric("e5"));
    assert!(!is_numeric("."));
    assert!(!is_numeric(""));
    assert!(!is_numeric("1e5e6"));
    assert!(!is_numeric("infini"));
    assert!(!is_numeric("in"));
    assert!(!is_numeric("nanx"));
    // a tiny mantissa under a large negative exponent truncates to zero
    assert!(is_numeric("123456789e-100"));
}

#[test]
fn raw_col_type_union() {
    let mut rc = RawCol::new();
    rc.push("1");
    rc.push("");
    assert!(rc.types.contains_int);
    assert!(rc.types.contains_null);
    assert!(!rc.types.contains_string);
    rc.push("hello");
    assert!(rc.types.contains_string);
    let det = ColType::determine("12.5");
    assert!(det.contains_int && !det.contains_string);
    let dete = ColType::determine("1e5");
    assert!(dete.contains_int && !dete.contains_string);
    let detw = ColType::determine("inf");
    assert!(detw.contains_int && !detw.contains_string);
}

#[test]
fn parser_helpers() {
    let clauses = vec![
        AggregateOrSelect::Select(col("a")),
        AggregateOrSelect::Aggregate((Aggregator::Sum, col("b"))),
        AggregateOrSelect::Select(col("c")),
    ];
    let q = construct_query(clauses, "t".to_string(), truth(true), None, None);
    assert_eq!(q.select.len(), 2);
    assert_eq!(q.aggregate.len(), 1);
    assert_eq!(q.limit.limit, u64::MAX);
    assert!(is_ident_start_char(b'a') && is_ident_start_char(b'_'));
    assert!(!is_ident_start_char(b'1') && is_ident_char(b'1'));
    assert_eq!(
        create_sql_identifier(&b"abc_1".to_vec()),
        Ok("abc_1".to_string())
    );
    assert!(create_sql_identifier(&b"1abc".to_vec()).is_err());
    // any valid UTF-8 tail after a sound start decodes
    assert_eq!(create_sql_identifier(&b"a-".to_vec()), Ok("a-".to_string()));
    let accented: Vec<u8> = "a\u{e9}".bytes().collect();
    assert_eq!(create_sql_identifier(&accented), Ok("a\u{e9}".to_string()));
    assert_eq!(
        create_sql_identifier(&vec![b'a', 0xFF]),
        Err("UTF8Error".to_string())
    );
}

#[test]
fn store_registry() {
    let mut store = Store::new();
    store.load_batches("t", table_t());
    store.load_batches("t", table_t());
    store.load_batches("u", vec![]);
    assert_eq!(store.snapshot("t").map(|b| b.len()), Some(2));
    assert_eq!(store.snapshot("u").map(|b| b.len()), Some(0));
    assert!(store.snapshot("v").is_none());
    let q = query(vec![col("a")], truth(true), vec![]);
    let res = run(&q, store.snapshot("t").unwrap());
    assert_eq!(res.rows.len(), 6);
}

#[test]
fn query_metadata_helpers() {
    let q = query(
        vec![col("a")],
        func(FuncType::GT, col("b"), lit(0)),
        vec![(Aggregator::Sum, col("c"))],
    );
    let mut refs = q.find_referenced_cols();
    refs.sort();
    assert_eq!(refs, vec!["a".to_string(), "b".to_string(), "c".to_string()]);
    let star = query(vec![col("*")], truth(true), vec![]);
    assert!(star.is_select_star());
    assert!(!q.is_select_star());
    let batches = table_t();
    let keep = q.prepare_batch(&vec!["a".to_string()], &batches[0]);
    assert_eq!(keep, vec![0]);
    let all = find_all_cols(&batches);
    assert_eq!(all.len(), 2);
}

#[test]
fn order_by_sorts_rows() {
    let batch = Batch {
        cols: vec![int_col("a", &[3, 1, 2]), int_col("b", &[30, 10, 20])],
    };
    let mut q = query(vec![col("a"), col("b")], truth(true), vec![]);
    q.order_by = Some(col("a"));
    let res = run(&q, &vec![batch]);
    assert_eq!(
        res.rows,
        vec![
            vec![RawVal::Int(1), RawVal::Int(10)],
            vec![RawVal::Int(2), RawVal::Int(20)],
            vec![RawVal::Int(3), RawVal::Int(30)],
        ]
    );
}

#[test]
fn order_by_with_ties_is_stable() {
    // equal keys keep their scan order
    let batch = Batch {
        cols: vec![
            int_col("k", &[2, 1, 2, 1, 2]),
            int_col("row", &[0, 1, 2, 3, 4]),
        ],
    };
    let mut q = query(vec![col("k"), col("row")], truth(true), vec![]);
    q.order_by = Some(col("k"));
    let res = run(&q, &vec![batch]);
    assert_eq!(
        res.rows,
        vec![
            vec![RawVal::Int(1), RawVal::Int(1)],
            vec![RawVal::Int(1), RawVal::Int(3)],
            vec![RawVal::Int(2), RawVal::Int(0)],
            vec![RawVal::Int(2), RawVal::Int(2)],
            vec![RawVal::Int(2), RawVal::Int(4)],
        ]
    );
}

#[test]
fn order_by_applies_before_window() {
    let batch = Batch {
        cols: vec![int_col("a", &[5, 3, 4, 1, 2])],
    };
    let mut q = query(vec![col("a")], truth(true), vec![]);
    q.order_by = Some(col("a"));
    q.limit = LimitClause { limit: 2, offset: 1 };
    let res = run(&q, &vec![batch]);
    assert_eq!(res.rows, vec![vec![RawVal::Int(2)], vec![RawVal::Int(3)]]);
}

#[test]
fn order_by_unknown_column_is_refused() {
    let mut q = query(vec![col("a")], truth(true), vec![]);
    q.order_by = Some(col("zzz"));
    match q.compile(&table_t()).run() {
        Err(PlanError::UnknownColumn(n)) => assert_eq!(n, "zzz"),
        other => panic!("expected unknown column, got {:?}", other.map(|_| ())),
    }
}

#[test]
fn filter_operator_compacts_in_place() {
    // a plain i64 column, a mask from `a < 3_000_000_000`, then Filter
    let batch = Batch {
        cols: vec![int_col("a", &[1, 5_000_000_000, 2])],
    };
    assert!(matches!(batch.cols[0].data, ColData::Plain(_)));
    let ops = vec![
        VecOp::ColumnScan { col: 0, masked: false },
        VecOp::ConstLoad { val: RawVal::Int(3_000_000_000) },
        VecOp::LessThanIntVS(VecConstBoolOperator::new(
            BufferRef { idx: 0 },
            BufferRef { idx: 1 },
            BufferRef { idx: 2 },
        )),
        VecOp::Filter { data: BufferRef { idx: 0 }, mask: BufferRef { idx: 2 } },
    ];
    let mut pad = Scratchpad::new();
    execute_plan(&ops, &batch, None, &mut pad);
    match &pad.slots[3] {
        TypedVec::Integer(v) => assert_eq!(v, &vec![1i64, 2]),
        _ => panic!("expected a compacted integer run"),
    }
}
