//! Captures span and log notifications into an explicit registry and rebuilds,
//! on demand, the filtered span tree and the ordered log stream under a root span.
mod attribute;
mod filter;
mod laws;
mod log;
mod registry;
mod report;

pub use attribute::{
    copy_record, extend_records, fields_of, has_field, merge_all, merge_field, merge_record,
    merge_records, message_field, names_unique, str_eq, FieldView, Level, MetaView, Metadata,
    Record, RecordValue, Records, ValueView,
};
pub use filter::{is_longest_match, is_prefix, keys_unique, Filter, FilterView};
pub use laws::{
    child_block_start, child_towards, descends, grown_outside, lemma_other_root_spans_isolated, ids_distinct_under, lemma_tree_nodes_distinct, lemma_logs_child_blocks, enabled_depth, lemma_disabled_spans_spliced,
    lemma_enabled_descendants_kept, lemma_logs_isolated, same_logs_under, lemma_logs_root_first,
    lemma_queries_repeatable, lemma_root_never_elided, lemma_roots_isolated, spliced_line,
};
pub use log::{
    add_event, enabled_logs, event_key, has_entry, logs_ok, metadata_unique, span_logs,
    LogsRecorder, LogsView,
};
pub use registry::{
    children_ok, span_ok, Registry, RegistryView, SpanState,
};
pub use report::{
    children_lines, children_logs, display_name, is_child_at, line_of, lines_of, node_records, own_fields,
    span_tree, subtree_lines, subtree_logs, Report, Span, SpanLine, SpanNode,
};

use vstd::prelude::*;

verus! {

/// Every log recorded so far that the filter lets through, whatever span it came from.
pub fn get_all_logs(registry: &Registry, filter: &Filter) -> (r: Records)
    requires
        filter@.wf(),
    ensures
        r@ == enabled_logs(registry@.logs, filter@),
{
    Records::new(registry.logs().all_records_for_filter(filter))
}

/// Both the output of `get_spans_for_root` and that of `get_logs_for_root`.
pub fn get_telemetry_for_root(registry: &Registry, root_id: u64, filter: &Filter) -> (r: (
    Span,
    Records,
))
    requires
        registry@.wf(),
        registry@.contains(root_id),
        filter@.wf(),
    ensures
        r.0@ == span_tree(registry@, filter@, root_id),
        r.1@ == subtree_logs(registry@, filter@, root_id as int),
{
    let report = Report::from_root(registry, root_id);
    (report.spans(filter), report.logs(filter))
}

/// The span tree under `root_id`, with the spans that the filter refuses spliced out.
pub fn get_spans_for_root(registry: &Registry, root_id: u64, filter: &Filter) -> (r: Span)
    requires
        registry@.wf(),
        registry@.contains(root_id),
        filter@.wf(),
    ensures
        r@ == span_tree(registry@, filter@, root_id),
{
    Report::from_root(registry, root_id).spans(filter)
}

/// The records of `root_id` and of its descendants, depth first, in creation order.
pub fn get_logs_for_root(registry: &Registry, root_id: u64, filter: &Filter) -> (r: Records)
    requires
        registry@.wf(),
        registry@.contains(root_id),
        filter@.wf(),
    ensures
        r@ == subtree_logs(registry@, filter@, root_id as int),
{
    Report::from_root(registry, root_id).logs(filter)
}

} // verus!
