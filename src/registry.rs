use vstd::prelude::*;

use crate::attribute::{
    fields_of, merge_field, merge_record, names_unique, FieldView, MetaView, Metadata,
    Record, RecordValue, ValueView,
};
use crate::log::{add_event, event_key, logs_ok, LogsRecorder, LogsView};

verus! {

/// What the registry knows of one span.
pub struct SpanState {
    pub metadata: MetaView,
    pub parent: Option<u64>,
    pub root: u64,
    pub fields: Seq<FieldView>,
    pub children: Seq<u64>,
}

/// The mathematical value of a [`Registry`]: the spans, indexed by their id, and the logs.
pub struct RegistryView {
    pub spans: Seq<SpanState>,
    pub logs: LogsView,
}

/// Span `i` is linked consistently with the spans created before it.
pub open spec fn span_ok(spans: Seq<SpanState>, i: int) -> bool {
    let s = spans[i];
    &&& s.root <= i
    &&& spans[s.root as int].parent is None
    &&& match s.parent {
        Some(p) => p < i && s.root == spans[p as int].root,
        None => s.root == i,
    }
    &&& names_unique(s.fields)
}

/// Each span lists exactly the spans whose parent it is, in increasing id order.
pub open spec fn children_ok(spans: Seq<SpanState>) -> bool {
    &&& forall|i: int, t: int|
        0 <= i < spans.len() && 0 <= t < spans[i].children.len() ==> {
            &&& (#[trigger] spans[i].children[t]) < spans.len()
            &&& spans[spans[i].children[t] as int].parent == Some(i as u64)
        }
    &&& forall|i: int, a: int, b: int|
        0 <= i < spans.len() && 0 <= a < b < spans[i].children.len() ==> #[trigger] spans[i].children[a]
            < #[trigger] spans[i].children[b]
    &&& forall|j: int|
        0 <= j < spans.len() && (#[trigger] spans[j].parent) is Some ==> spans[spans[j].parent->0 as int].children.contains(
            j as u64,
        )
}

impl RegistryView {
    pub open spec fn contains(self, id: u64) -> bool {
        id < self.spans.len()
    }

    pub open spec fn wf(self) -> bool {
        &&& self.spans.len() <= u64::MAX
        &&& forall|i: int| 0 <= i < self.spans.len() ==> #[trigger] span_ok(self.spans, i)
        &&& children_ok(self.spans)
        &&& logs_ok(self.logs)
    }

    /// The span that `new_span` adds.
    pub open spec fn created(self, metadata: MetaView, parent: Option<u64>) -> SpanState {
        SpanState {
            metadata,
            parent,
            root: match parent {
                Some(p) => self.spans[p as int].root,
                None => self.spans.len() as u64,
            },
            fields: Seq::empty(),
            children: Seq::empty(),
        }
    }

    /// The registry after `new_span`: the new span is listed among its parent's children
    /// and added at the end.
    pub open spec fn with_span(self, metadata: MetaView, parent: Option<u64>) -> RegistryView {
        let spans = match parent {
            Some(p) => self.spans.update(
                p as int,
                SpanState {
                    children: self.spans[p as int].children.push(self.spans.len() as u64),
                    ..self.spans[p as int]
                },
            ),
            None => self.spans,
        };
        RegistryView { spans: spans.push(self.created(metadata, parent)), logs: self.logs }
    }

    /// The registry after field `name` of span `id` is set to `value`.
    pub open spec fn with_field(self, id: u64, name: Seq<char>, value: ValueView) -> RegistryView {
        RegistryView {
            spans: self.spans.update(
                id as int,
                SpanState {
                    fields: merge_field(self.spans[id as int].fields, name, value),
                    ..self.spans[id as int]
                },
            ),
            logs: self.logs,
        }
    }
}

struct SpanEntry {
    metadata: Metadata,
    parent: Option<u64>,
    root: u64,
    fields: Vec<Record>,
    children: Vec<u64>,
}

impl SpanEntry {
    closed spec fn state(self) -> SpanState {
        SpanState {
            metadata: self.metadata@,
            parent: self.parent,
            root: self.root,
            fields: fields_of(self.fields@),
            children: self.children@,
        }
    }
}

/// The shared state that span and event notifications fill: every span with its
/// parent, root and fields, and the log accumulator.
pub struct Registry {
    spans: Vec<SpanEntry>,
    logs: LogsRecorder,
}

impl View for Registry {
    type V = RegistryView;

    closed spec fn view(&self) -> RegistryView {
        RegistryView { spans: self.spans@.map_values(|e: SpanEntry| e.state()), logs: self.logs@ }
    }
}

impl Registry {
    pub fn new() -> (r: Registry)
        ensures
            r@.spans.len() == 0,
            r@.logs.len() == 0,
            r@.wf(),
    {
        Registry { spans: Vec::new(), logs: LogsRecorder::new() }
    }

    pub fn span_count(&self) -> (r: usize)
        ensures
            r == self@.spans.len(),
    {
        self.spans.len()
    }

    pub fn contains(&self, id: u64) -> (r: bool)
        ensures
            r == self@.contains(id),
    {
        (id as u128) < (self.spans.len() as u128)
    }

    fn index_of(&self, id: u64) -> (r: usize)
        requires
            self@.contains(id),
        ensures
            r == id,
    {
        let n = self.spans.len();
        assert(id < n);
        id as usize
    }

    pub(crate) fn metadata(&self, id: u64) -> (r: &Metadata)
        requires
            self@.contains(id),
        ensures
            r@ == self@.spans[id as int].metadata,
    {
        &self.spans[self.index_of(id)].metadata
    }

    pub(crate) fn fields(&self, id: u64) -> (r: &Vec<Record>)
        requires
            self@.contains(id),
        ensures
            fields_of(r@) == self@.spans[id as int].fields,
    {
        &self.spans[self.index_of(id)].fields
    }

    pub fn parent_of(&self, id: u64) -> (r: Option<u64>)
        requires
            self@.contains(id),
        ensures
            r == self@.spans[id as int].parent,
    {
        self.spans[self.index_of(id)].parent
    }

    pub fn root_of(&self, id: u64) -> (r: u64)
        requires
            self@.contains(id),
        ensures
            r == self@.spans[id as int].root,
    {
        self.spans[self.index_of(id)].root
    }

    /// The children of span `id`, in creation order.
    pub fn children_of(&self, id: u64) -> (r: &Vec<u64>)
        requires
            self@.contains(id),
        ensures
            r@ == self@.spans[id as int].children,
    {
        &self.spans[self.index_of(id)].children
    }

    pub fn logs(&self) -> (r: &LogsRecorder)
        ensures
            r@ == self@.logs,
    {
        &self.logs
    }

    /// Registers a new span under `parent` (or as a new root) and returns its id.
    pub fn new_span(&mut self, metadata: Metadata, parent: Option<u64>) -> (id: u64)
        requires
            old(self)@.wf(),
            old(self)@.spans.len() < u64::MAX,
            match parent {
                Some(p) => old(self)@.contains(p),
                None => true,
            },
        ensures
            id == old(self)@.spans.len(),
            final(self)@ == old(self)@.with_span(metadata@, parent),
            final(self)@.wf(),
    {
        let ghost before = self@;
        let id = self.spans.len() as u64;
        let root = match parent {
            Some(p) => {
                let pi = self.index_of(p);
                let root = self.spans[pi].root;
                self.spans[pi].children.push(id);
                root
            },
            None => id,
        };
        self.spans.push(SpanEntry { metadata, parent, root, fields: Vec::new(), children: Vec::new() });
        proof {
            let after = before.with_span(metadata@, parent);
            let n = before.spans.len();
            assert(fields_of(Seq::<Record>::empty()) =~= Seq::<FieldView>::empty());
            assert(self@.spans =~= after.spans);
            assert forall|i: int| 0 <= i < after.spans.len() implies #[trigger] span_ok(
                after.spans,
                i,
            ) by {
                if i < n {
                    assert(span_ok(before.spans, i));
                } else {
                    match parent {
                        Some(p) => {
                            assert(span_ok(before.spans, p as int));
                        },
                        None => {},
                    }
                }
            }
            let sp = after.spans;
            assert forall|i: int, t: int| 0 <= i < sp.len() && 0 <= t < sp[i].children.len() implies {
                &&& (#[trigger] sp[i].children[t]) < sp.len()
                &&& sp[sp[i].children[t] as int].parent == Some(i as u64)
            } by {
                if i < n && t < before.spans[i].children.len() {
                    assert(sp[i].children[t] == before.spans[i].children[t]);
                }
            }
            assert forall|i: int, a: int, b: int|
                0 <= i < sp.len() && 0 <= a < b < sp[i].children.len() implies #[trigger] sp[i].children[a]
                < #[trigger] sp[i].children[b] by {
                if i < n && b < before.spans[i].children.len() {
                    assert(sp[i].children[a] == before.spans[i].children[a]);
                    assert(sp[i].children[b] == before.spans[i].children[b]);
                } else if i < n {
                    assert(sp[i].children[a] == before.spans[i].children[a]);
                    assert(before.spans[i].children[a] < n);
                }
            }
            assert forall|j: int| 0 <= j < sp.len() && (#[trigger] sp[j].parent) is Some implies sp[sp[j].parent->0 as int].children.contains(
                j as u64,
            ) by {
                let q = sp[j].parent->0 as int;
                if j < n {
                    assert(span_ok(before.spans, j));
                    assert(before.spans[j].parent is Some);
                    assert(before.spans[q].children.contains(j as u64));
                    let t = choose|t: int| 0 <= t < before.spans[q].children.len() && before.spans[q].children[t] == j as u64;
                    if parent == Some(q as u64) {
                        assert(sp[q].children == before.spans[q].children.push(n as u64));
                    } else {
                        assert(sp[q].children == before.spans[q].children);
                    }
                    assert(sp[q].children[t] == j as u64);
                } else {
                    assert(sp[q].children[sp[q].children.len() - 1] == j as u64);
                }
            }
        }
        id
    }

    /// Sets field `name` of span `id` to `value`.
    pub fn record_field(&mut self, id: u64, name: String, value: RecordValue)
        requires
            old(self)@.wf(),
            old(self)@.contains(id),
        ensures
            final(self)@ == old(self)@.with_field(id, name@, value@),
            final(self)@.wf(),
    {
        let ghost before = self@;
        let idx = self.index_of(id);
        let ghost fields = before.spans[idx as int].fields;
        assert(span_ok(before.spans, idx as int));
        let ghost merged = merge_field(fields, name@, value@);
        merge_record(&mut self.spans[idx].fields, name, value);
        proof {
            let after = before.with_field(id, name@, value@);
            assert(self@.spans =~= after.spans);
            let sp = after.spans;
            assert forall|i: int| 0 <= i < sp.len() implies sp[i].children == before.spans[i].children
                && sp[i].parent == before.spans[i].parent by {}
            assert forall|i: int, t: int| 0 <= i < sp.len() && 0 <= t < sp[i].children.len() implies {
                &&& (#[trigger] sp[i].children[t]) < sp.len()
                &&& sp[sp[i].children[t] as int].parent == Some(i as u64)
            } by {
                assert(sp[i].children[t] == before.spans[i].children[t]);
            }
            assert forall|i: int, a: int, b: int|
                0 <= i < sp.len() && 0 <= a < b < sp[i].children.len() implies #[trigger] sp[i].children[a]
                < #[trigger] sp[i].children[b] by {
                assert(sp[i].children[a] == before.spans[i].children[a]);
                assert(sp[i].children[b] == before.spans[i].children[b]);
            }
            assert forall|j: int| 0 <= j < sp.len() && (#[trigger] sp[j].parent) is Some implies sp[sp[j].parent->0 as int].children.contains(
                j as u64,
            ) by {
                assert(before.spans[j].parent is Some);
                assert(span_ok(before.spans, j));
            }
            assert forall|i: int| 0 <= i < self@.spans.len() implies #[trigger] span_ok(
                self@.spans,
                i,
            ) by {
                assert(span_ok(before.spans, i));
            }
        }
    }

    /// Marks span `id` as closed; its node and records stay, so that later queries see them.
    pub fn close_span(&mut self, id: u64)
        requires
            old(self)@.wf(),
            old(self)@.contains(id),
        ensures
            final(self)@ == old(self)@,
    {
    }

    /// Records one log event emitted inside `current_span_id`, if any.
    pub fn log_event(&mut self, current_span_id: Option<u64>, metadata: Metadata, fields: &Vec<Record>)
        requires
            old(self)@.wf(),
        ensures
            final(self)@ == (RegistryView {
                spans: old(self)@.spans,
                logs: add_event(
                    old(self)@.logs,
                    event_key(metadata@, current_span_id),
                    fields_of(fields@),
                ),
            }),
            final(self)@.wf(),
    {
        self.logs.event(current_span_id, metadata, fields);
    }
}

} // verus!
