use test_span::{
    get_all_logs, get_logs_for_root, get_spans_for_root, get_telemetry_for_root, Filter, Level,
    Metadata, Record, RecordValue, Records, Registry, Report, Span,
};

fn meta(name: &str, target: &str, level: Level) -> Metadata {
    Metadata::new(name.to_string(), target.to_string(), level)
}

fn field(name: &str, value: RecordValue) -> Record {
    (name.to_string(), value)
}

fn message(text: &str) -> Vec<Record> {
    vec![field("message", RecordValue::Debug(text.to_string()))]
}

fn shape(span: &Span) -> Vec<(u64, usize, String)> {
    (0..span.len())
        .map(|i| {
            let n = span.node(i);
            (n.id, n.depth, n.name.clone())
        })
        .collect()
}

fn all(records: &Records) -> Vec<Record> {
    (0..records.len()).map(|i| records.get(i).clone()).collect()
}

#[test]
fn longest_prefix_wins() {
    let filter = Filter::new(Level::Info)
        .with_target("a".to_string(), Level::Warn)
        .with_target("a.b".to_string(), Level::Debug);
    // "a.b.c" resolves to Debug
    assert!(filter.is_enabled(&meta("x", "a.b.c", Level::Debug)));
    assert!(!filter.is_enabled(&meta("x", "a.b.c", Level::Trace)));
    // "a.x" resolves to Warn
    assert!(filter.is_enabled(&meta("x", "a.x", Level::Warn)));
    assert!(!filter.is_enabled(&meta("x", "a.x", Level::Info)));
    // "z" resolves to the default, Info
    assert!(filter.is_enabled(&meta("x", "z", Level::Info)));
    assert!(!filter.is_enabled(&meta("x", "z", Level::Debug)));
}

#[test]
fn with_target_replaces_an_override() {
    let filter = Filter::new(Level::Info)
        .with_target("a".to_string(), Level::Trace)
        .with_target("a".to_string(), Level::Error);
    assert!(filter.is_enabled(&meta("x", "a", Level::Error)));
    assert!(!filter.is_enabled(&meta("x", "a", Level::Warn)));
}

#[test]
fn level_order() {
    assert!(Level::Trace.admits(&Level::Error));
    assert!(Level::Info.admits(&Level::Info));
    assert!(!Level::Warn.admits(&Level::Info));
    assert_eq!(Level::Debug.verbosity(), 3);
}

#[test]
fn two_siblings_each_with_a_child() {
    let mut reg = Registry::new();
    let root = reg.new_span(meta("root", "tests", Level::Info), None);
    let d1 = reg.new_span(meta("do_stuff", "my_crate", Level::Info), Some(root));
    let d2 = reg.new_span(meta("do_stuff", "my_crate", Level::Info), Some(root));
    let s1 = reg.new_span(meta("do_stuff2", "my_crate::an_other_target", Level::Info), Some(d1));
    reg.record_field(s1, "number".to_string(), RecordValue::U64(1));
    let s2 = reg.new_span(meta("do_stuff2", "my_crate::an_other_target", Level::Info), Some(d2));
    reg.record_field(s2, "number".to_string(), RecordValue::U64(2));
    let filter = Filter::new(Level::Info);

    let spans = get_spans_for_root(&reg, root, &filter);
    assert_eq!(
        shape(&spans),
        vec![
            (root, 0, "tests::root".to_string()),
            (d1, 1, "my_crate::do_stuff".to_string()),
            (s1, 2, "my_crate::an_other_target::do_stuff2".to_string()),
            (d2, 1, "my_crate::do_stuff".to_string()),
            (s2, 2, "my_crate::an_other_target::do_stuff2".to_string()),
        ]
    );
    assert_eq!(spans.node(2).record, vec![field("number", RecordValue::U64(1))]);
    assert_eq!(spans.node(4).record, vec![field("number", RecordValue::U64(2))]);

    let logs = get_logs_for_root(&reg, root, &filter);
    assert_eq!(
        all(&logs),
        vec![field("number", RecordValue::U64(1)), field("number", RecordValue::U64(2))]
    );
}

#[test]
fn root_kept_under_any_filter() {
    let mut reg = Registry::new();
    let root = reg.new_span(meta("root", "tests", Level::Trace), None);
    reg.record_field(root, "k".to_string(), RecordValue::Bool(true));
    let child = reg.new_span(meta("child", "tests", Level::Trace), Some(root));
    let spans = get_spans_for_root(&reg, root, &Filter::new(Level::Error));
    assert_eq!(shape(&spans), vec![(root, 0, "tests::root".to_string())]);
    assert!(spans.node(0).record.is_empty());
    let spans = get_spans_for_root(&reg, root, &Filter::new(Level::Trace));
    assert_eq!(spans.len(), 2);
    assert_eq!(spans.node(1).id, child);
    assert_eq!(spans.node(0).record, vec![field("k", RecordValue::Bool(true))]);
}

#[test]
fn disabled_span_is_spliced_out() {
    let mut reg = Registry::new();
    let root = reg.new_span(meta("root", "t", Level::Info), None);
    let mid = reg.new_span(meta("mid", "t", Level::Debug), Some(root));
    let inner = reg.new_span(meta("inner", "t", Level::Debug), Some(mid));
    let leaf = reg.new_span(meta("leaf", "t", Level::Info), Some(inner));
    let sibling = reg.new_span(meta("sibling", "t", Level::Info), Some(root));
    let spans = get_spans_for_root(&reg, root, &Filter::new(Level::Info));
    assert_eq!(
        shape(&spans),
        vec![
            (root, 0, "t::root".to_string()),
            (leaf, 1, "t::leaf".to_string()),
            (sibling, 1, "t::sibling".to_string()),
        ]
    );
    assert_eq!(spans.children(0), vec![1, 2]);
    assert_eq!(spans.children(1), Vec::<usize>::new());
    let spans = get_spans_for_root(&reg, root, &Filter::new(Level::Debug));
    assert_eq!(spans.children(0), vec![1, 4]);
    assert_eq!(spans.children(1), vec![2]);
    assert_eq!(spans.children(2), vec![3]);
    assert_eq!(spans.children(4), Vec::<usize>::new());
    assert_eq!(
        shape(&spans),
        vec![
            (root, 0, "t::root".to_string()),
            (mid, 1, "t::mid".to_string()),
            (inner, 2, "t::inner".to_string()),
            (leaf, 3, "t::leaf".to_string()),
            (sibling, 1, "t::sibling".to_string()),
        ]
    );
}

#[test]
fn logs_follow_the_tree_whatever_spans_are_enabled() {
    let mut reg = Registry::new();
    let root = reg.new_span(meta("root", "t", Level::Info), None);
    let a = reg.new_span(meta("a", "t", Level::Debug), Some(root));
    let b = reg.new_span(meta("b", "t", Level::Info), Some(root));
    let a1 = reg.new_span(meta("a1", "t", Level::Info), Some(a));
    reg.log_event(Some(b), meta("ev", "t", Level::Info), &message("in b"));
    reg.log_event(Some(a1), meta("ev", "t", Level::Info), &message("in a1"));
    reg.log_event(Some(a), meta("ev", "t", Level::Info), &message("in a"));
    reg.log_event(Some(root), meta("ev", "t", Level::Info), &message("in root"));
    reg.log_event(Some(root), meta("dbg", "t", Level::Debug), &message("hidden"));
    reg.record_field(a, "x".to_string(), RecordValue::I64(-4));
    let logs = get_logs_for_root(&reg, root, &Filter::new(Level::Info));
    assert_eq!(
        all(&logs),
        vec![
            field("message", RecordValue::Debug("in root".to_string())),
            field("message", RecordValue::Debug("in a".to_string())),
            field("message", RecordValue::Debug("in a1".to_string())),
            field("message", RecordValue::Debug("in b".to_string())),
        ]
    );
    let logs = get_logs_for_root(&reg, a, &Filter::new(Level::Debug));
    assert_eq!(
        all(&logs),
        vec![
            field("x", RecordValue::I64(-4)),
            field("message", RecordValue::Debug("in a".to_string())),
            field("message", RecordValue::Debug("in a1".to_string())),
        ]
    );
}

#[test]
fn repeated_queries_agree() {
    let mut reg = Registry::new();
    let root = reg.new_span(meta("root", "t", Level::Info), None);
    let c = reg.new_span(meta("c", "t", Level::Info), Some(root));
    reg.record_field(c, "n".to_string(), RecordValue::Str("v".to_string()));
    reg.log_event(Some(c), meta("ev", "t", Level::Info), &message("hi"));
    let filter = Filter::new(Level::Info);
    let first = get_spans_for_root(&reg, root, &filter);
    let second = get_spans_for_root(&reg, root, &filter);
    assert_eq!(first, second);
    assert_eq!(get_logs_for_root(&reg, root, &filter), get_logs_for_root(&reg, root, &filter));
    let (spans, logs) = get_telemetry_for_root(&reg, root, &filter);
    assert_eq!(spans, first);
    assert_eq!(logs, get_logs_for_root(&reg, root, &filter));
}

#[test]
fn independent_roots_do_not_leak() {
    let mut reg = Registry::new();
    let r1 = reg.new_span(meta("r1", "t", Level::Info), None);
    let r2 = reg.new_span(meta("r2", "t", Level::Info), None);
    let c1 = reg.new_span(meta("c", "t", Level::Info), Some(r1));
    let c2 = reg.new_span(meta("c", "t", Level::Info), Some(r2));
    reg.log_event(Some(c2), meta("ev", "t", Level::Info), &message("two"));
    reg.log_event(Some(c1), meta("ev", "t", Level::Info), &message("one"));
    assert_eq!(reg.root_of(c1), r1);
    assert_eq!(reg.root_of(c2), r2);
    assert_eq!(reg.parent_of(c2), Some(r2));
    assert_eq!(reg.children_of(r1), &vec![c1]);
    assert_eq!(reg.children_of(r2), &vec![c2]);
    let filter = Filter::new(Level::Info);
    let s1 = get_spans_for_root(&reg, r1, &filter);
    assert_eq!(shape(&s1), vec![(r1, 0, "t::r1".to_string()), (c1, 1, "t::c".to_string())]);
    let s2 = get_spans_for_root(&reg, r2, &filter);
    assert_eq!(shape(&s2), vec![(r2, 0, "t::r2".to_string()), (c2, 1, "t::c".to_string())]);
    let l1 = get_logs_for_root(&reg, r1, &filter);
    assert!(l1.contains_message("one"));
    assert!(!l1.contains_message("two"));
    let l2 = get_logs_for_root(&reg, r2, &filter);
    assert_eq!(all(&l2), message("two"));
}

#[test]
fn all_logs_ignore_roots() {
    let mut reg = Registry::new();
    let r1 = reg.new_span(meta("r1", "t", Level::Info), None);
    reg.log_event(Some(r1), meta("ev", "t", Level::Info), &message("one"));
    reg.log_event(None, meta("loose", "t", Level::Warn), &message("no span"));
    reg.log_event(None, meta("loose", "t", Level::Trace), &message("too verbose"));
    let logs = get_all_logs(&reg, &Filter::new(Level::Info));
    assert_eq!(
        all(&logs),
        vec![
            field("message", RecordValue::Debug("one".to_string())),
            field("message", RecordValue::Debug("no span".to_string())),
        ]
    );
    let report = Report::from_root(&reg, r1);
    assert_eq!(all(&report.logs(&Filter::new(Level::Info))), message("one"));
}

#[test]
fn same_field_twice_keeps_the_last_value() {
    let mut reg = Registry::new();
    let root = reg.new_span(meta("root", "t", Level::Info), None);
    reg.record_field(root, "a".to_string(), RecordValue::U64(1));
    reg.record_field(root, "b".to_string(), RecordValue::U64(2));
    reg.record_field(root, "a".to_string(), RecordValue::U64(3));
    let spans = get_spans_for_root(&reg, root, &Filter::new(Level::Info));
    assert_eq!(
        spans.node(0).record,
        vec![field("a", RecordValue::U64(3)), field("b", RecordValue::U64(2))]
    );
}

#[test]
fn events_of_one_callsite_merge_by_field_name() {
    let mut reg = Registry::new();
    let root = reg.new_span(meta("root", "t", Level::Info), None);
    reg.log_event(Some(root), meta("ev", "t", Level::Info), &vec![
        field("message", RecordValue::Debug("first".to_string())),
        field("n", RecordValue::U64(1)),
    ]);
    reg.log_event(Some(root), meta("other", "t", Level::Info), &message("between"));
    reg.log_event(Some(root), meta("ev", "t", Level::Info), &message("second"));
    let logs = get_logs_for_root(&reg, root, &Filter::new(Level::Info));
    assert_eq!(
        all(&logs),
        vec![
            field("message", RecordValue::Debug("second".to_string())),
            field("n", RecordValue::U64(1)),
            field("message", RecordValue::Debug("between".to_string())),
        ]
    );
}

#[test]
fn repeated_name_within_one_event_keeps_the_last() {
    let mut reg = Registry::new();
    reg.log_event(None, meta("ev", "t", Level::Info), &vec![
        field("k", RecordValue::I64(1)),
        field("j", RecordValue::Bool(false)),
        field("k", RecordValue::I64(2)),
    ]);
    let logs = get_all_logs(&reg, &Filter::new(Level::Info));
    assert_eq!(
        all(&logs),
        vec![field("k", RecordValue::I64(2)), field("j", RecordValue::Bool(false))]
    );
}

#[test]
fn records_lookup() {
    let records = Records::new(vec![
        field("message", RecordValue::Debug("hello".to_string())),
        field("n", RecordValue::I64(7)),
    ]);
    assert!(records.contains_message("hello"));
    assert!(!records.contains_message("bye"));
    assert!(records.contains_value("n", RecordValue::I64(7)));
    assert!(!records.contains_value("n", RecordValue::U64(7)));
    assert!(!records.contains_value("m", RecordValue::I64(7)));
    assert!(!Records::new(vec![]).contains_message("hello"));
}

#[test]
fn unknown_ids_are_reported() {
    let mut reg = Registry::new();
    assert!(!reg.contains(0));
    let root = reg.new_span(meta("root", "t", Level::Info), None);
    assert!(reg.contains(root));
    assert!(!reg.contains(root + 1));
    assert_eq!(reg.span_count(), 1);
    assert_eq!(reg.parent_of(root), None);
}

#[test]
fn closed_spans_stay_queryable() {
    let mut reg = Registry::new();
    let root = reg.new_span(meta("root", "t", Level::Info), None);
    let child = reg.new_span(meta("child", "t", Level::Info), Some(root));
    reg.record_field(child, "n".to_string(), RecordValue::U64(5));
    reg.close_span(child);
    reg.close_span(root);
    let spans = get_spans_for_root(&reg, root, &Filter::new(Level::Info));
    assert_eq!(spans.len(), 2);
    assert_eq!(spans.node(1).record, vec![field("n", RecordValue::U64(5))]);
}

#[test]
fn other_root_activity_leaves_a_tree_unchanged() {
    let mut reg = Registry::new();
    let r1 = reg.new_span(meta("r1", "t", Level::Info), None);
    let r2 = reg.new_span(meta("r2", "t", Level::Info), None);
    let c1 = reg.new_span(meta("c", "t", Level::Info), Some(r1));
    reg.log_event(Some(c1), meta("ev", "t", Level::Info), &message("one"));
    let filter = Filter::new(Level::Info);
    let (spans_before, logs_before) = get_telemetry_for_root(&reg, r1, &filter);
    let c2 = reg.new_span(meta("c", "t", Level::Info), Some(r2));
    reg.new_span(meta("d", "t", Level::Info), Some(c2));
    reg.record_field(c2, "n".to_string(), RecordValue::U64(9));
    reg.log_event(Some(c2), meta("ev", "t", Level::Info), &message("two"));
    let (spans_after, logs_after) = get_telemetry_for_root(&reg, r1, &filter);
    assert_eq!(spans_before, spans_after);
    assert_eq!(logs_before, logs_after);
}
