use vstd::prelude::*;

use crate::attribute::{extend_records, fields_of, FieldView, MetaView, Metadata, Record, Records};
use crate::filter::{Filter, FilterView};
use crate::log::{enabled_logs, span_logs};
use crate::registry::{span_ok, Registry, RegistryView};

verus! {

/// `target::name`, the name under which a span is shown.
pub open spec fn display_name(m: MetaView) -> Seq<char> {
    m.target + seq![':', ':'] + m.name
}

/// The fields of span `k`, if the filter lets the span through.
pub open spec fn own_fields(reg: RegistryView, f: FilterView, k: int) -> Seq<FieldView> {
    if f.enables(reg.spans[k].metadata) {
        reg.spans[k].fields
    } else {
        Seq::empty()
    }
}

/// What is shown of span `k`: its own fields, then the logs emitted inside it.
pub open spec fn node_records(reg: RegistryView, f: FilterView, k: int) -> Seq<FieldView> {
    own_fields(reg, f, k) + span_logs(reg.logs, f, k as u64)
}

/// One node of a span tree, listed in pre-order with its depth below the root.
pub struct SpanLine {
    pub id: u64,
    pub depth: nat,
    pub name: Seq<char>,
    pub record: Seq<FieldView>,
}

pub open spec fn line_of(reg: RegistryView, f: FilterView, k: int, depth: nat) -> SpanLine {
    SpanLine {
        id: k as u64,
        depth,
        name: display_name(reg.spans[k].metadata),
        record: node_records(reg, f, k),
    }
}

/// The lines that span `k` contributes when it hangs at `depth`: its own line and its
/// children below it if the filter lets it through; else its children, in its place.
pub open spec fn subtree_lines(reg: RegistryView, f: FilterView, k: int, depth: nat) -> Seq<
    SpanLine,
>
    decreases reg.spans.len() - k, reg.spans.len() + 1,
{
    if 0 <= k < reg.spans.len() {
        if f.enables(reg.spans[k].metadata) {
            seq![line_of(reg, f, k, depth)] + children_lines(
                reg,
                f,
                k,
                reg.spans.len() as int,
                depth + 1,
            )
        } else {
            children_lines(reg, f, k, reg.spans.len() as int, depth)
        }
    } else {
        Seq::empty()
    }
}

/// The lines of the children of span `i` among the spans below id `j`, in creation order.
pub open spec fn children_lines(reg: RegistryView, f: FilterView, i: int, j: int, depth: nat) -> Seq<
    SpanLine,
>
    decreases reg.spans.len() - i, j,
{
    if 0 <= i && i < j - 1 && j <= reg.spans.len() {
        children_lines(reg, f, i, j - 1, depth) + if reg.spans[j - 1].parent == Some(i as u64) {
            subtree_lines(reg, f, j - 1, depth)
        } else {
            Seq::empty()
        }
    } else {
        Seq::empty()
    }
}

/// The span tree under `root`, in pre-order: the root itself, always, with its own
/// fields, then its children.
pub open spec fn span_tree(reg: RegistryView, f: FilterView, root: u64) -> Seq<SpanLine> {
    seq![
        SpanLine {
            id: root,
            depth: 0,
            name: display_name(reg.spans[root as int].metadata),
            record: own_fields(reg, f, root as int),
        },
    ] + children_lines(reg, f, root as int, reg.spans.len() as int, 1)
}

/// The records of span `k` followed by those of its descendants, depth first.
pub open spec fn subtree_logs(reg: RegistryView, f: FilterView, k: int) -> Seq<FieldView>
    decreases reg.spans.len() - k, reg.spans.len() + 1,
{
    if 0 <= k < reg.spans.len() {
        node_records(reg, f, k) + children_logs(reg, f, k, reg.spans.len() as int)
    } else {
        Seq::empty()
    }
}

/// The records of the subtrees of the children of `i` below id `j`, in creation order.
pub open spec fn children_logs(reg: RegistryView, f: FilterView, i: int, j: int) -> Seq<FieldView>
    decreases reg.spans.len() - i, j,
{
    if 0 <= i && i < j - 1 && j <= reg.spans.len() {
        children_logs(reg, f, i, j - 1) + if reg.spans[j - 1].parent == Some(i as u64) {
            subtree_logs(reg, f, j - 1)
        } else {
            Seq::empty()
        }
    } else {
        Seq::empty()
    }
}

proof fn lemma_no_child_between(reg: RegistryView, f: FilterView, i: int, a: int, b: int, d: nat)
    requires
        0 <= i < a <= b <= reg.spans.len(),
        forall|j: int| a <= j < b ==> reg.spans[j].parent != Some(i as u64),
    ensures
        children_lines(reg, f, i, b, d) == children_lines(reg, f, i, a, d),
        children_logs(reg, f, i, b) == children_logs(reg, f, i, a),
    decreases b - a,
{
    if a < b {
        lemma_no_child_between(reg, f, i, a, b - 1, d);
        assert(children_lines(reg, f, i, b, d) =~= children_lines(reg, f, i, b - 1, d));
        assert(children_logs(reg, f, i, b) =~= children_logs(reg, f, i, b - 1));
    }
}

/// Between the child listed before position `t` of span `i` and the one listed at `t`,
/// no span has `i` as its parent.
proof fn lemma_children_skip(
    reg: RegistryView,
    f: FilterView,
    i: int,
    t: int,
    pos: int,
    stop: int,
    d: nat,
)
    requires
        reg.wf(),
        0 <= i < reg.spans.len(),
        0 <= t <= reg.spans[i].children.len(),
        i < pos <= stop <= reg.spans.len(),
        t > 0 ==> pos == reg.spans[i].children[t - 1] + 1,
        t == 0 ==> pos == i + 1,
        t < reg.spans[i].children.len() ==> stop <= reg.spans[i].children[t],
    ensures
        children_lines(reg, f, i, stop, d) == children_lines(reg, f, i, pos, d),
        children_logs(reg, f, i, stop) == children_logs(reg, f, i, pos),
{
    let cs = reg.spans[i].children;
    assert forall|j: int| pos <= j < stop implies reg.spans[j].parent != Some(i as u64) by {
        if reg.spans[j].parent == Some(i as u64) {
            assert(cs.contains(j as u64));
            let u = choose|u: int| 0 <= u < cs.len() && cs[u] == j as u64;
            if u > t {
                assert(cs[t] < cs[u]);
            } else if u < t - 1 {
                assert(cs[u] < cs[t - 1]);
            }
        }
    }
    lemma_no_child_between(reg, f, i, pos, stop, d);
}

/// Appending the subtree of the next child of `i`.
proof fn lemma_children_step(reg: RegistryView, f: FilterView, i: int, c: int, d: nat)
    requires
        0 <= i < c < reg.spans.len(),
        reg.spans[c].parent == Some(i as u64),
    ensures
        children_lines(reg, f, i, c + 1, d) == children_lines(reg, f, i, c, d) + subtree_lines(
            reg,
            f,
            c,
            d,
        ),
        children_logs(reg, f, i, c + 1) == children_logs(reg, f, i, c) + subtree_logs(reg, f, c),
{
}

/// One node of a [`Span`] tree.
#[derive(Debug, PartialEq, Eq)]
pub struct SpanNode {
    pub id: u64,
    pub depth: usize,
    pub name: String,
    pub record: Vec<Record>,
}

impl View for SpanNode {
    type V = SpanLine;

    open spec fn view(&self) -> SpanLine {
        SpanLine {
            id: self.id,
            depth: self.depth as nat,
            name: self.name@,
            record: fields_of(self.record@),
        }
    }
}

pub open spec fn lines_of(v: Seq<SpanNode>) -> Seq<SpanLine> {
    v.map_values(|n: SpanNode| n@)
}

/// Node `x` of `lines` is a direct child of node `i`: it comes after `i`, one level
/// deeper, and every node between them lies deeper than `i`.
pub open spec fn is_child_at(lines: Seq<SpanLine>, i: int, x: int) -> bool {
    &&& 0 <= i < x < lines.len()
    &&& lines[x].depth == lines[i].depth + 1
    &&& forall|y: int| i < y < x ==> lines[y].depth > lines[i].depth
}

/// A span tree, its nodes listed in pre-order with their depth; the first node is the root.
#[derive(Debug, PartialEq, Eq)]
pub struct Span {
    nodes: Vec<SpanNode>,
}

impl View for Span {
    type V = Seq<SpanLine>;

    closed spec fn view(&self) -> Seq<SpanLine> {
        lines_of(self.nodes@)
    }
}

impl Span {
    pub fn len(&self) -> (r: usize)
        ensures
            r == self@.len(),
    {
        self.nodes.len()
    }

    /// The positions of the direct children of node `i`, in order.
    pub fn children(&self, i: usize) -> (r: Vec<usize>)
        requires
            i < self@.len(),
        ensures
            forall|t: int| 0 <= t < r@.len() ==> is_child_at(self@, i as int, #[trigger] r@[t] as int),
            forall|t: int, u: int| 0 <= t < u < r@.len() ==> #[trigger] r@[t] < #[trigger] r@[u],
            forall|x: int| #[trigger] is_child_at(self@, i as int, x) ==> r@.contains(x as usize),
    {
        let ghost lines = self@;
        let n = self.nodes.len();
        let d = self.nodes[i].depth;
        assert(lines[i as int].depth == d);
        let mut out: Vec<usize> = Vec::new();
        let mut x: usize = i + 1;
        while x < n && self.nodes[x].depth > d
            invariant
                lines == self@,
                n == lines.len(),
                lines[i as int].depth == d,
                i < x <= n,
                forall|y: int| i < y < x ==> lines[y].depth > d,
                forall|t: int|
                    0 <= t < out@.len() ==> is_child_at(lines, i as int, #[trigger] out@[t] as int)
                        && out@[t] < x,
                forall|t: int, u: int| 0 <= t < u < out@.len() ==> #[trigger] out@[t] < #[trigger] out@[u],
                forall|z: int| i < z < x && is_child_at(lines, i as int, z) ==> out@.contains(z as usize),
            decreases n - x,
        {
            assert(lines[x as int] == self.nodes@[x as int]@);
            let ghost prev = out@;
            if self.nodes[x].depth - 1 == d {
                out.push(x);
                assert(out@[out@.len() - 1] == x);
            }
            proof {
                assert forall|z: int| i < z < x + 1 && is_child_at(lines, i as int, z) implies out@.contains(
                    z as usize,
                ) by {
                    if z == x {
                        assert(out@[out@.len() - 1] == x);
                    } else {
                        assert(prev.contains(z as usize));
                        let t = choose|t: int| 0 <= t < prev.len() && prev[t] == z as usize;
                        assert(out@[t] == prev[t]);
                    }
                }
            }
            x += 1;
        }
        proof {
            if x < n {
                assert(lines[x as int] == self.nodes@[x as int]@);
            }
            assert forall|z: int| #[trigger] is_child_at(lines, i as int, z) implies out@.contains(
                z as usize,
            ) by {
                if z >= x {
                    assert(lines[x as int].depth <= d);
                    if z > x {
                        assert(x < z);
                    }
                }
            }
        }
        out
    }

    pub fn node(&self, i: usize) -> (r: &SpanNode)
        requires
            i < self@.len(),
        ensures
            r@ == self@[i as int],
    {
        &self.nodes[i]
    }
}

fn push_node(out: &mut Vec<SpanNode>, node: SpanNode)
    ensures
        lines_of(final(out)@) == lines_of(old(out)@).push(node@),
{
    out.push(node);
    assert(lines_of(out@) =~= lines_of(old(out)@).push(node@));
}

fn display_name_of(m: &Metadata) -> (r: String)
    ensures
        r@ == display_name(m@),
{
    let mut s = m.target.clone();
    let sep = "::";
    proof {
        reveal_strlit("::");
        assert(sep@ =~= seq![':', ':']);
    }
    s.append(sep);
    s.append(m.name.as_str());
    s
}

/// The spans and logs that share a root, read from a registry that stays borrowed, and
/// so unchanged, while the report lives.
pub struct Report<'a> {
    registry: &'a Registry,
    root_id: u64,
}

impl<'a> Report<'a> {
    pub closed spec fn registry_view(&self) -> RegistryView {
        self.registry@
    }

    pub closed spec fn root(&self) -> u64 {
        self.root_id
    }

    pub open spec fn wf(&self) -> bool {
        self.registry_view().wf() && self.registry_view().contains(self.root())
    }

    pub fn from_root(registry: &'a Registry, root_node: u64) -> (r: Report<'a>)
        requires
            registry@.wf(),
            registry@.contains(root_node),
        ensures
            r.registry_view() == registry@,
            r.root() == root_node,
            r.wf(),
    {
        Report { registry, root_id: root_node }
    }

    /// The records of the root, then those of its descendants, depth first, in creation order.
    pub fn logs(&self, filter: &Filter) -> (r: Records)
        requires
            self.wf(),
            filter@.wf(),
        ensures
            r@ == subtree_logs(self.registry_view(), filter@, self.root() as int),
    {
        let mut records: Vec<Record> = Vec::new();
        self.subtree_logs_insert(&mut records, self.root_id, filter);
        Records::new(records)
    }

    /// The span tree under the root, with the spans that the filter refuses spliced out.
    pub fn spans(&self, filter: &Filter) -> (r: Span)
        requires
            self.wf(),
            filter@.wf(),
        ensures
            r@ == span_tree(self.registry_view(), filter@, self.root()),
    {
        let root = self.root_id;
        let metadata = self.registry.metadata(root);
        let mut record: Vec<Record> = Vec::new();
        if filter.is_enabled(metadata) {
            extend_records(&mut record, self.registry.fields(root));
        }
        assert(fields_of(record@) =~= own_fields(self.registry@, filter@, root as int));
        let mut nodes: Vec<SpanNode> = Vec::new();
        push_node(
            &mut nodes,
            SpanNode { id: root, depth: 0, name: display_name_of(metadata), record },
        );
        self.dfs_span_insert(&mut nodes, root, 1, filter);
        let r = Span { nodes };
        assert(r@ =~= span_tree(self.registry_view(), filter@, self.root()));
        r
    }

    fn node_record(&self, k: u64, filter: &Filter) -> (r: Vec<Record>)
        requires
            self.wf(),
            filter@.wf(),
            self.registry@.contains(k),
        ensures
            fields_of(r@) == node_records(self.registry@, filter@, k as int),
    {
        let mut record: Vec<Record> = Vec::new();
        if filter.is_enabled(self.registry.metadata(k)) {
            extend_records(&mut record, self.registry.fields(k));
        }
        let logs = self.registry.logs().record_for_span_id_and_filter(k, filter);
        extend_records(&mut record, &logs);
        assert(fields_of(record@) =~= node_records(self.registry@, filter@, k as int));
        record
    }

    /// Appends the lines of span `k` hanging at `depth`.
    fn subtree_span_insert(&self, out: &mut Vec<SpanNode>, k: u64, depth: usize, filter: &Filter)
        requires
            self.wf(),
            filter@.wf(),
            self.registry@.contains(k),
            depth <= k,
        ensures
            lines_of(final(out)@) == lines_of(old(out)@) + subtree_lines(
                self.registry@,
                filter@,
                k as int,
                depth as nat,
            ),
        decreases self.registry@.spans.len() - k, self.registry@.spans.len() + 1,
    {
        let ghost reg = self.registry@;
        // bounds the span count, and so `depth + 1`, by `usize::MAX`
        let _n = self.registry.span_count();
        let metadata = self.registry.metadata(k);
        if filter.is_enabled(metadata) {
            let record = self.node_record(k, filter);
            let node = SpanNode { id: k, depth, name: display_name_of(metadata), record };
            assert(node@ == line_of(reg, filter@, k as int, depth as nat));
            push_node(out, node);
            self.dfs_span_insert(out, k, depth + 1, filter);
            assert(lines_of(out@) =~= lines_of(old(out)@) + subtree_lines(
                reg,
                filter@,
                k as int,
                depth as nat,
            ));
        } else {
            self.dfs_span_insert(out, k, depth, filter);
        }
    }

    /// Appends the lines of the children of span `current`, their own children at `depth`.
    fn dfs_span_insert(&self, out: &mut Vec<SpanNode>, current: u64, depth: usize, filter: &Filter)
        requires
            self.wf(),
            filter@.wf(),
            self.registry@.contains(current),
            depth <= current + 1,
        ensures
            lines_of(final(out)@) == lines_of(old(out)@) + children_lines(
                self.registry@,
                filter@,
                current as int,
                self.registry@.spans.len() as int,
                depth as nat,
            ),
        decreases self.registry@.spans.len() - current, self.registry@.spans.len(),
    {
        let ghost reg = self.registry@;
        let ghost n = reg.spans.len() as int;
        let children = self.registry.children_of(current);
        let ghost cs = children@;
        let mut t: usize = 0;
        let ghost mut pos: int = current + 1;
        assert(lines_of(out@) =~= lines_of(old(out)@) + children_lines(
            reg,
            filter@,
            current as int,
            pos,
            depth as nat,
        ));
        while t < children.len()
            invariant
                self.wf(),
                filter@.wf(),
                reg == self.registry@,
                n == reg.spans.len(),
                self.registry@.contains(current),
                cs == children@,
                cs == reg.spans[current as int].children,
                depth <= current + 1,
                0 <= t <= cs.len(),
                current < pos <= n,
                t > 0 ==> pos == cs[t - 1] + 1,
                t == 0 ==> pos == current + 1,
                lines_of(out@) == lines_of(old(out)@) + children_lines(
                    reg,
                    filter@,
                    current as int,
                    pos,
                    depth as nat,
                ),
            decreases cs.len() - t,
        {
            let c = children[t];
            proof {
                assert(span_ok(reg.spans, c as int));
                if t > 0 {
                    assert(cs[t - 1] < cs[t as int]);
                }
                lemma_children_skip(reg, filter@, current as int, t as int, pos, c as int, depth as nat);
                lemma_children_step(reg, filter@, current as int, c as int, depth as nat);
            }
            self.subtree_span_insert(out, c, depth, filter);
            proof {
                pos = c + 1;
            }
            t += 1;
        }
        proof {
            lemma_children_skip(reg, filter@, current as int, t as int, pos, n, depth as nat);
        }
    }

    /// Appends the records of span `k` and of its descendants.
    fn subtree_logs_insert(&self, records: &mut Vec<Record>, k: u64, filter: &Filter)
        requires
            self.wf(),
            filter@.wf(),
            self.registry@.contains(k),
        ensures
            fields_of(final(records)@) == fields_of(old(records)@) + subtree_logs(
                self.registry@,
                filter@,
                k as int,
            ),
        decreases self.registry@.spans.len() - k, self.registry@.spans.len() + 1,
    {
        let own = self.node_record(k, filter);
        extend_records(records, &own);
        self.dfs_logs_insert(records, k, filter);
        assert(fields_of(records@) =~= fields_of(old(records)@) + subtree_logs(
            self.registry@,
            filter@,
            k as int,
        ));
    }

    /// Appends the records of the subtrees of the children of `current`, in creation order.
    fn dfs_logs_insert(&self, records: &mut Vec<Record>, current: u64, filter: &Filter)
        requires
            self.wf(),
            filter@.wf(),
            self.registry@.contains(current),
        ensures
            fields_of(final(records)@) == fields_of(old(records)@) + children_logs(
                self.registry@,
                filter@,
                current as int,
                self.registry@.spans.len() as int,
            ),
        decreases self.registry@.spans.len() - current, self.registry@.spans.len(),
    {
        let ghost reg = self.registry@;
        let ghost n = reg.spans.len() as int;
        let children = self.registry.children_of(current);
        let ghost cs = children@;
        let mut t: usize = 0;
        let ghost mut pos: int = current + 1;
        assert(fields_of(records@) =~= fields_of(old(records)@) + children_logs(
            reg,
            filter@,
            current as int,
            pos,
        ));
        while t < children.len()
            invariant
                self.wf(),
                filter@.wf(),
                reg == self.registry@,
                n == reg.spans.len(),
                self.registry@.contains(current),
                cs == children@,
                cs == reg.spans[current as int].children,
                0 <= t <= cs.len(),
                current < pos <= n,
                t > 0 ==> pos == cs[t - 1] + 1,
                t == 0 ==> pos == current + 1,
                fields_of(records@) == fields_of(old(records)@) + children_logs(
                    reg,
                    filter@,
                    current as int,
                    pos,
                ),
            decreases cs.len() - t,
        {
            let c = children[t];
            proof {
                assert(span_ok(reg.spans, c as int));
                if t > 0 {
                    assert(cs[t - 1] < cs[t as int]);
                }
                lemma_children_skip(reg, filter@, current as int, t as int, pos, c as int, 0);
                lemma_children_step(reg, filter@, current as int, c as int, 0);
            }
            self.subtree_logs_insert(records, c, filter);
            proof {
                pos = c + 1;
            }
            t += 1;
        }
        proof {
            lemma_children_skip(reg, filter@, current as int, t as int, pos, n, 0);
        }
    }
}

} // verus!
