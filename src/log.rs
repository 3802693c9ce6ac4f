use vstd::prelude::*;

use crate::attribute::{
    extend_records, fields_of, merge_all, merge_records, names_unique, FieldView, MetaView, Metadata, Record,
};
use crate::filter::{Filter, FilterView};

verus! {

/// The log accumulator, as a sequence of (metadata, fields) entries in insertion order.
pub type LogsView = Seq<(MetaView, Seq<FieldView>)>;

/// No two entries share their metadata.
pub open spec fn metadata_unique(logs: LogsView) -> bool {
    forall|i: int, j: int| 0 <= i < logs.len() && 0 <= j < logs.len() && i != j ==> logs[i].0 != logs[j].0
}

/// Entries have distinct metadata, and each holds distinctly named fields.
pub open spec fn logs_ok(logs: LogsView) -> bool {
    &&& metadata_unique(logs)
    &&& forall|i: int| 0 <= i < logs.len() ==> names_unique(#[trigger] logs[i].1)
}

pub open spec fn has_entry(logs: LogsView, key: MetaView) -> bool {
    exists|i: int| 0 <= i < logs.len() && logs[i].0 == key
}

/// Merges `fields` into the entry of `key` (the last write to a name wins), or adds an
/// entry for it at the end.
pub open spec fn add_event(logs: LogsView, key: MetaView, fields: Seq<FieldView>) -> LogsView {
    if has_entry(logs, key) {
        let i = choose|i: int| 0 <= i < logs.len() && logs[i].0 == key;
        logs.update(i, (key, merge_all(logs[i].1, fields)))
    } else {
        logs.push((key, merge_all(Seq::empty(), fields)))
    }
}

/// The metadata an event is stored under: its own, tagged with the active span if any.
pub open spec fn event_key(m: MetaView, current_span_id: Option<u64>) -> MetaView {
    match current_span_id {
        Some(id) => MetaView { span_id: Some(id), ..m },
        None => m,
    }
}

/// The fields of the enabled entries that occurred inside span `id`, in insertion order.
pub open spec fn span_logs(logs: LogsView, f: FilterView, id: u64) -> Seq<FieldView>
    decreases logs.len(),
{
    if logs.len() == 0 {
        Seq::empty()
    } else {
        let last = logs.last();
        span_logs(logs.drop_last(), f, id) + if f.enables(last.0) && last.0.span_id == Some(id) {
            last.1
        } else {
            Seq::empty()
        }
    }
}

/// The fields of all enabled entries, in insertion order.
pub open spec fn enabled_logs(logs: LogsView, f: FilterView) -> Seq<FieldView>
    decreases logs.len(),
{
    if logs.len() == 0 {
        Seq::empty()
    } else {
        let last = logs.last();
        enabled_logs(logs.drop_last(), f) + if f.enables(last.0) {
            last.1
        } else {
            Seq::empty()
        }
    }
}

pub struct LogEntry {
    metadata: Metadata,
    fields: Vec<Record>,
}

/// Log events, grouped by the metadata they were emitted with.
pub struct LogsRecorder {
    recorders: Vec<LogEntry>,
}

impl View for LogsRecorder {
    type V = LogsView;

    closed spec fn view(&self) -> LogsView {
        self.recorders@.map_values(|e: LogEntry| (e.metadata@, fields_of(e.fields@)))
    }
}

impl LogsRecorder {
    pub fn new() -> (r: LogsRecorder)
        ensures
            r@ == Seq::<(MetaView, Seq<FieldView>)>::empty(),
    {
        let r = LogsRecorder { recorders: Vec::new() };
        assert(r@ =~= Seq::<(MetaView, Seq<FieldView>)>::empty());
        r
    }

    /// Records the fields of one event emitted inside `current_span_id`, if any.
    pub fn event(&mut self, current_span_id: Option<u64>, metadata: Metadata, fields: &Vec<Record>)
        requires
            logs_ok(old(self)@),
        ensures
            final(self)@ == add_event(
                old(self)@,
                event_key(metadata@, current_span_id),
                fields_of(fields@),
            ),
            logs_ok(final(self)@),
    {
        let ghost given = metadata@;
        let keyed = match current_span_id {
            Some(id) => metadata.with_span_id(id),
            None => metadata,
        };
        let ghost key = keyed@;
        let ghost before = self@;
        let mut i: usize = 0;
        while i < self.recorders.len()
            invariant
                0 <= i <= self.recorders@.len(),
                self@ == before,
                key == keyed@,
                given == metadata@,
                key == event_key(given, current_span_id),
                before == old(self)@,
                logs_ok(before),
                forall|k: int| 0 <= k < i ==> before[k].0 != key,
            decreases self.recorders@.len() - i,
        {
            assert(before[i as int] == (
                self.recorders@[i as int].metadata@,
                fields_of(self.recorders@[i as int].fields@),
            ));
            if self.recorders[i].metadata.same_as(&keyed) {
                proof {
                    assert(has_entry(before, key));
                    let c = choose|c: int| 0 <= c < before.len() && before[c].0 == key;
                    assert(c == i);
                }
                assert(names_unique(before[i as int].1));
                merge_records(&mut self.recorders[i].fields, fields);
                assert(self@ =~= add_event(before, key, fields_of(fields@)));
                assert forall|k: int| 0 <= k < self@.len() implies names_unique(#[trigger] self@[k].1) by {
                    if k != i {
                        assert(self@[k] == before[k]);
                    }
                }
                return;
            }
            i += 1;
        }
        let mut copied: Vec<Record> = Vec::new();
        assert(fields_of(copied@) =~= Seq::<FieldView>::empty());
        merge_records(&mut copied, fields);
        self.recorders.push(LogEntry { metadata: keyed, fields: copied });
        assert(self@ =~= add_event(before, key, fields_of(fields@)));
        assert forall|k: int| 0 <= k < self@.len() implies names_unique(#[trigger] self@[k].1) by {
            if k < before.len() {
                assert(self@[k] == before[k]);
            }
        }
    }

    /// The fields of the enabled events that occurred inside span `span_id`.
    pub fn record_for_span_id_and_filter(&self, span_id: u64, filter: &Filter) -> (r: Vec<Record>)
        requires
            filter@.wf(),
        ensures
            fields_of(r@) == span_logs(self@, filter@, span_id),
    {
        let mut out: Vec<Record> = Vec::new();
        let mut i: usize = 0;
        while i < self.recorders.len()
            invariant
                0 <= i <= self.recorders@.len(),
                filter@.wf(),
                fields_of(out@) == span_logs(self@.subrange(0, i as int), filter@, span_id),
            decreases self.recorders@.len() - i,
        {
            let entry = &self.recorders[i];
            assert(self@.subrange(0, i + 1).drop_last() =~= self@.subrange(0, i as int));
            assert(self@[i as int] == (entry.metadata@, fields_of(entry.fields@)));
            if filter.is_enabled(&entry.metadata) && entry.metadata.span_id == Some(span_id) {
                extend_records(&mut out, &entry.fields);
            } else {
                assert(fields_of(out@) =~= fields_of(out@) + Seq::<FieldView>::empty());
            }
            i += 1;
        }
        assert(self@.subrange(0, i as int) =~= self@);
        out
    }

    /// The fields of every enabled event, whatever span it occurred in.
    pub fn all_records_for_filter(&self, filter: &Filter) -> (r: Vec<Record>)
        requires
            filter@.wf(),
        ensures
            fields_of(r@) == enabled_logs(self@, filter@),
    {
        let mut out: Vec<Record> = Vec::new();
        let mut i: usize = 0;
        while i < self.recorders.len()
            invariant
                0 <= i <= self.recorders@.len(),
                filter@.wf(),
                fields_of(out@) == enabled_logs(self@.subrange(0, i as int), filter@),
            decreases self.recorders@.len() - i,
        {
            let entry = &self.recorders[i];
            assert(self@.subrange(0, i + 1).drop_last() =~= self@.subrange(0, i as int));
            assert(self@[i as int] == (entry.metadata@, fields_of(entry.fields@)));
            if filter.is_enabled(&entry.metadata) {
                extend_records(&mut out, &entry.fields);
            } else {
                assert(fields_of(out@) =~= fields_of(out@) + Seq::<FieldView>::empty());
            }
            i += 1;
        }
        assert(self@.subrange(0, i as int) =~= self@);
        out
    }
}

} // verus!
