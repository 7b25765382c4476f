use sql_bridge::bridge::{
    decode_many, decode_one, finish_close, generated_row_id, print_window_url, BridgeError,
    QueryResult,
};
use sql_bridge::registry::TransactionRegistry;
use sql_bridge::value::{
    bind_param, bind_params, decode_cell, decode_row, to_wire, BindError, CellProbe, DynValue,
    RawColumn, WireParam,
};
use std::collections::HashSet;

fn probe(
    as_int: Option<i64>,
    as_float: Option<f64>,
    as_text: Option<&str>,
    as_bool: Option<bool>,
) -> CellProbe {
    CellProbe {
        as_int,
        as_float: as_float.map(f64::to_bits),
        as_text: as_text.map(|s| s.to_string()),
        as_bool,
    }
}

fn integer(i: i64) -> WireParam {
    WireParam::Number { as_int: Some(i), as_float: Some((i as f64).to_bits()) }
}

fn float(f: f64) -> WireParam {
    WireParam::Number { as_int: None, as_float: Some(f.to_bits()) }
}

fn text(s: &str) -> WireParam {
    WireParam::Text(s.to_string())
}

#[test]
fn bind_each_supported_shape() {
    assert_eq!(bind_param(&WireParam::Null), Ok(DynValue::Null));
    assert_eq!(bind_param(&WireParam::Bool(true)), Ok(DynValue::Bool(true)));
    assert_eq!(bind_param(&integer(42)), Ok(DynValue::Integer(42)));
    assert_eq!(bind_param(&float(3.5)), Ok(DynValue::Float(3.5f64.to_bits())));
    assert_eq!(bind_param(&text("x")), Ok(DynValue::Text("x".to_string())));
}

#[test]
fn bind_integer_takes_precedence_over_float() {
    assert_eq!(bind_param(&integer(i64::MIN)), Ok(DynValue::Integer(i64::MIN)));
    assert_eq!(bind_param(&integer(i64::MAX)), Ok(DynValue::Integer(i64::MAX)));
}

#[test]
fn bind_rejects_unsupported_shapes() {
    assert_eq!(bind_param(&WireParam::List), Err(BindError::UnsupportedType));
    assert_eq!(bind_param(&WireParam::Record), Err(BindError::UnsupportedType));
    let unreadable = WireParam::Number { as_int: None, as_float: None };
    assert_eq!(bind_param(&unreadable), Err(BindError::UnsupportedNumber));
}

#[test]
fn bind_params_keeps_order() {
    let params = vec![WireParam::Null, WireParam::Bool(false), integer(-7), text("a")];
    let bound = bind_params(&params).unwrap();
    assert_eq!(
        bound,
        vec![
            DynValue::Null,
            DynValue::Bool(false),
            DynValue::Integer(-7),
            DynValue::Text("a".to_string())
        ]
    );
    assert_eq!(bind_params(&vec![]), Ok(vec![]));
}

#[test]
fn bind_params_reports_first_failure() {
    let unreadable = WireParam::Number { as_int: None, as_float: None };
    let params = vec![integer(1), WireParam::Record, unreadable.clone()];
    assert_eq!(bind_params(&params), Err(BindError::UnsupportedType));
    let params = vec![integer(1), unreadable, WireParam::List];
    assert_eq!(bind_params(&params), Err(BindError::UnsupportedNumber));
}

#[test]
fn decode_probes_in_fixed_order() {
    let all = probe(Some(3), Some(3.0), Some("3"), Some(true));
    assert_eq!(decode_cell(&all), DynValue::Integer(3));
    let no_int = probe(None, Some(2.5), Some("2.5"), Some(true));
    assert_eq!(decode_cell(&no_int), DynValue::Float(2.5f64.to_bits()));
    let only_text_bool = probe(None, None, Some("yes"), Some(true));
    assert_eq!(decode_cell(&only_text_bool), DynValue::Text("yes".to_string()));
    let only_bool = probe(None, None, None, Some(false));
    assert_eq!(decode_cell(&only_bool), DynValue::Bool(false));
    assert_eq!(decode_cell(&probe(None, None, None, None)), DynValue::Null);
}

#[test]
fn decode_non_finite_float_is_null() {
    assert_eq!(decode_cell(&probe(None, Some(f64::NAN), None, None)), DynValue::Null);
    assert_eq!(decode_cell(&probe(None, Some(f64::INFINITY), None, None)), DynValue::Null);
    assert_eq!(decode_cell(&probe(None, Some(f64::NEG_INFINITY), Some("x"), None)), DynValue::Null);
    assert_eq!(
        decode_cell(&probe(None, Some(f64::MAX), None, None)),
        DynValue::Float(f64::MAX.to_bits())
    );
}

#[test]
fn decode_row_keeps_columns_and_duplicates() {
    let raw = vec![
        RawColumn { name: "id".to_string(), cell: probe(Some(1), Some(1.0), None, None) },
        RawColumn { name: "id".to_string(), cell: probe(None, None, Some("b"), None) },
    ];
    let row = decode_row(&raw);
    assert_eq!(
        row,
        vec![
            ("id".to_string(), DynValue::Integer(1)),
            ("id".to_string(), DynValue::Text("b".to_string()))
        ]
    );
    assert_eq!(decode_row(&vec![]), vec![]);
}

#[test]
fn find_one_on_no_rows_is_absent() {
    assert_eq!(decode_one(None).data, None);
    let one = decode_one(Some(vec![RawColumn {
        name: "n".to_string(),
        cell: probe(Some(5), None, None, None),
    }]));
    assert_eq!(one.data, Some(vec![("n".to_string(), DynValue::Integer(5))]));
}

#[test]
fn find_many_keeps_row_order() {
    assert!(decode_many(&vec![]).data.is_empty());
    let rows = vec![
        vec![RawColumn { name: "n".to_string(), cell: probe(Some(2), None, None, None) }],
        vec![RawColumn { name: "n".to_string(), cell: probe(Some(1), None, None, None) }],
    ];
    let many = decode_many(&rows);
    assert_eq!(
        many.data,
        vec![
            vec![("n".to_string(), DynValue::Integer(2))],
            vec![("n".to_string(), DynValue::Integer(1))]
        ]
    );
}

#[test]
fn decoded_values_round_trip_as_parameters() {
    let cells = vec![
        probe(None, None, None, None),
        probe(Some(-9), Some(-9.0), None, None),
        probe(None, Some(0.1), None, None),
        probe(None, None, Some("text"), Some(false)),
        probe(None, None, None, Some(true)),
    ];
    for cell in &cells {
        let v = decode_cell(cell);
        assert_eq!(bind_param(&to_wire(&v)), Ok(v));
    }
}

#[test]
fn insert_then_find_many_reconstructs_types() {
    let params = vec![WireParam::Null, WireParam::Bool(true), integer(42), float(3.5), text("x")];
    let bound = bind_params(&params).unwrap();
    assert_eq!(
        bound,
        vec![
            DynValue::Null,
            DynValue::Bool(true),
            DynValue::Integer(42),
            DynValue::Float(4615063718147915776),
            DynValue::Text("x".to_string())
        ]
    );
    let mut registry: TransactionRegistry<u32> = TransactionRegistry::new();
    let handle = registry.begin_transaction(Ok(1)).unwrap();
    let (tx, values) = registry.prepare_execute(&handle, &params).unwrap();
    assert_eq!(tx, 1);
    assert_eq!(values, bound);
    let done = registry.finish_execute(handle.clone(), tx, Ok((Some(1), 1)));
    assert_eq!(done, Ok(QueryResult { last_insert_id: Some(1), rows_affected: 1 }));
    let closing = registry.take(&handle);
    assert_eq!(closing, Some(1));
    assert_eq!(finish_close(Some(Ok(()))), Ok(()));
    // The row as the driver hands it back: SQLite stores the boolean as an integer.
    let stored = vec![
        RawColumn { name: "a".to_string(), cell: probe(None, None, None, None) },
        RawColumn { name: "b".to_string(), cell: probe(None, None, None, Some(true)) },
        RawColumn { name: "c".to_string(), cell: probe(Some(42), Some(42.0), None, None) },
        RawColumn { name: "d".to_string(), cell: probe(None, Some(3.5), None, None) },
        RawColumn { name: "e".to_string(), cell: probe(None, None, Some("x"), None) },
    ];
    let found = decode_many(&vec![stored]);
    assert_eq!(found.data.len(), 1);
    let values: Vec<DynValue> = found.data[0].iter().map(|(_, v)| v.clone()).collect();
    assert_eq!(values, bound);
}

#[test]
fn constraint_violation_keeps_transaction_open_until_rollback() {
    let mut registry: TransactionRegistry<u32> = TransactionRegistry::new();
    let handle = registry.begin_transaction(Ok(7)).unwrap();
    let (tx, _) = registry.prepare_execute(&handle, &vec![integer(1)]).unwrap();
    assert!(!registry.contains(&handle));
    let failed = registry.finish_execute(
        handle.clone(),
        tx,
        Err("UNIQUE constraint failed: t.id".to_string()),
    );
    assert_eq!(failed, Err(BridgeError::Execution("UNIQUE constraint failed: t.id".to_string())));
    assert!(registry.contains(&handle));
    let (tx, _) = registry.prepare_execute(&handle, &vec![]).unwrap();
    assert_eq!(tx, 7);
    registry.finish_execute(handle.clone(), tx, Ok((None, 0))).unwrap();
    let rolled = registry.take(&handle);
    assert_eq!(rolled, Some(7));
    assert_eq!(finish_close(Some(Ok(()))), Ok(()));
    assert_eq!(registry.len(), 0);
    assert_eq!(registry.take(&handle), None);
    assert_eq!(finish_close(None), Ok(()));
    assert_eq!(registry.take(&handle), None);
    assert_eq!(finish_close(None), Ok(()));
}

#[test]
fn close_of_unknown_handle_is_noop() {
    let mut registry: TransactionRegistry<u32> = TransactionRegistry::new();
    let handle = registry.begin_transaction(Ok(3)).unwrap();
    assert_eq!(registry.take(&"no-such-handle".to_string()), None);
    assert_eq!(finish_close(None), Ok(()));
    assert!(registry.contains(&handle));
    assert_eq!(registry.len(), 1);
}

#[test]
fn close_failure_is_reported() {
    assert_eq!(
        finish_close(Some(Err("disk I/O error".to_string()))),
        Err(BridgeError::CloseFailed("disk I/O error".to_string()))
    );
}

#[test]
fn begin_failure_registers_nothing() {
    let mut registry: TransactionRegistry<u32> = TransactionRegistry::new();
    let r = registry.begin_transaction(Err("pool timed out".to_string()));
    assert_eq!(r, Err(BridgeError::BeginFailed("pool timed out".to_string())));
    assert_eq!(registry.len(), 0);
}

#[test]
fn begin_issues_distinct_handles() {
    let mut registry: TransactionRegistry<u32> = TransactionRegistry::new();
    let mut seen = HashSet::new();
    for i in 0..10_000u32 {
        let h = registry.begin_transaction(Ok(i)).unwrap();
        assert_eq!(h.len(), 36);
        assert!(seen.insert(h));
        if i % 2 == 0 {
            let _ = registry.insert(format!("scratch-{i}"), i);
            let _ = registry.take(&format!("scratch-{i}"));
        }
    }
    assert_eq!(registry.len(), 10_000);
}

#[test]
fn execute_on_unknown_handle_is_not_found() {
    let mut registry: TransactionRegistry<u32> = TransactionRegistry::new();
    let r = registry.prepare_execute(&"missing".to_string(), &vec![integer(1)]);
    assert_eq!(r, Err(BridgeError::TransactionNotFound));
}

#[test]
fn execute_binding_error_leaves_transaction_open() {
    let mut registry: TransactionRegistry<u32> = TransactionRegistry::new();
    let handle = registry.begin_transaction(Ok(4)).unwrap();
    let r = registry.prepare_execute(&handle, &vec![WireParam::List]);
    assert_eq!(r, Err(BridgeError::Binding(BindError::UnsupportedType)));
    assert!(registry.contains(&handle));
}

#[test]
fn separate_transactions_stay_apart() {
    let mut registry: TransactionRegistry<u32> = TransactionRegistry::new();
    let a = registry.begin_transaction(Ok(10)).unwrap();
    let b = registry.begin_transaction(Ok(20)).unwrap();
    let (ta, _) = registry.prepare_execute(&a, &vec![]).unwrap();
    let (tb, _) = registry.prepare_execute(&b, &vec![]).unwrap();
    registry.finish_execute(b.clone(), tb, Ok((Some(2), 1))).unwrap();
    registry.finish_execute(a.clone(), ta, Err("busy".to_string())).unwrap_err();
    assert_eq!(registry.take(&a), Some(10));
    assert_eq!(registry.take(&b), Some(20));
}

#[test]
fn insert_displaces_previous_entry() {
    let mut registry: TransactionRegistry<u32> = TransactionRegistry::new();
    assert_eq!(registry.insert("h".to_string(), 1), None);
    assert_eq!(registry.insert("h".to_string(), 2), Some(1));
    assert_eq!(registry.len(), 1);
    assert_eq!(registry.take(&"h".to_string()), Some(2));
}

#[test]
fn print_url_encodes_content() {
    assert_eq!(print_window_url("<p>hi</p>"), "data:text/html,PHA-aGk8L3A-");
    assert_eq!(print_window_url("ab?>"), "data:text/html,YWI_Pg==");
    assert_eq!(print_window_url(""), "data:text/html,");
}

#[test]
fn begin_handle_is_uuid_v4_text() {
    let mut registry: TransactionRegistry<u32> = TransactionRegistry::new();
    let h = registry.begin_transaction(Ok(1)).unwrap();
    let chars: Vec<char> = h.chars().collect();
    assert_eq!(chars.len(), 36);
    for (i, c) in chars.iter().enumerate() {
        if [8, 13, 18, 23].contains(&i) {
            assert_eq!(*c, '-');
        } else {
            assert!(c.is_ascii_digit() || ('a'..='f').contains(c));
        }
    }
    assert_eq!(chars[14], '4');
    assert!(['8', '9', 'a', 'b'].contains(&chars[19]));
}

#[test]
fn closed_handle_is_never_registered_again() {
    let mut registry: TransactionRegistry<u32> = TransactionRegistry::new();
    assert_eq!(registry.register("h".to_string(), 1), Ok("h".to_string()));
    assert_eq!(registry.register("h".to_string(), 2), Err(BridgeError::HandleCollision));
    assert_eq!(registry.take(&"h".to_string()), Some(1));
    assert!(registry.was_issued(&"h".to_string()));
    assert_eq!(registry.register("h".to_string(), 3), Err(BridgeError::HandleCollision));
    assert_eq!(registry.len(), 0);
    assert_eq!(registry.register("k".to_string(), 4), Ok("k".to_string()));
}

#[test]
fn row_id_present_only_when_a_row_was_generated() {
    assert_eq!(generated_row_id(0, 5, 1), Some(5));
    assert_eq!(generated_row_id(5, 5, 1), None);
    assert_eq!(generated_row_id(3, 9, 0), None);
    assert_eq!(generated_row_id(-1, 0, 2), Some(0));
}

#[test]
fn execute_result_without_row_id() {
    let mut registry: TransactionRegistry<u32> = TransactionRegistry::new();
    let h = registry.begin_transaction(Ok(1)).unwrap();
    let (tx, _) = registry.prepare_execute(&h, &vec![]).unwrap();
    let r = registry.finish_execute(h, tx, Ok((None, 3)));
    assert_eq!(r, Ok(QueryResult { last_insert_id: None, rows_affected: 3 }));
}
