use vstd::prelude::*;

use crate::attribute::{merge_all, FieldView, MetaView};
use crate::filter::FilterView;
use crate::log::{add_event, event_key, has_entry, metadata_unique, span_logs, LogsView};
use crate::registry::{span_ok, RegistryView};
use crate::report::{
    children_lines, children_logs, display_name, line_of, node_records, span_tree, subtree_lines,
    subtree_logs, SpanLine,
};

verus! {

/// Span `k` lies strictly below span `root`.
pub open spec fn descends(reg: RegistryView, root: int, k: int) -> bool
    decreases k,
{
    if 0 <= k < reg.spans.len() {
        match reg.spans[k].parent {
            Some(p) => p < k && (p == root || descends(reg, root, p as int)),
            None => false,
        }
    } else {
        false
    }
}

/// The number of spans that the filter lets through on the path from `root`
/// (excluded) down to `k` (included).
pub open spec fn enabled_depth(reg: RegistryView, f: FilterView, root: int, k: int) -> nat
    decreases k,
{
    if k == root || !(0 <= k < reg.spans.len()) {
        0
    } else {
        match reg.spans[k].parent {
            Some(p) => if p < k {
                enabled_depth(reg, f, root, p as int) + if f.enables(reg.spans[k].metadata) {
                    1nat
                } else {
                    0nat
                }
            } else {
                0
            },
            None => 0,
        }
    }
}

/// A line below the root of the tree under `root`: a descendant that the filter lets
/// through, at the depth given by its enabled ancestors.
pub open spec fn spliced_line(reg: RegistryView, f: FilterView, root: int, l: SpanLine) -> bool {
    &&& descends(reg, root, l.id as int)
    &&& f.enables(reg.spans[l.id as int].metadata)
    &&& l.depth == enabled_depth(reg, f, root, l.id as int)
}

proof fn lemma_descends_below(reg: RegistryView, root: int, k: int)
    requires
        descends(reg, root, k),
    ensures
        root < k,
    decreases k,
{
    let p = reg.spans[k].parent.unwrap();
    if p != root {
        lemma_descends_below(reg, root, p as int);
    }
}

proof fn lemma_descends_same_root(reg: RegistryView, root: int, k: int)
    requires
        reg.wf(),
        0 <= root < reg.spans.len(),
        descends(reg, root, k),
    ensures
        reg.spans[k].root == reg.spans[root].root,
    decreases k,
{
    assert(span_ok(reg.spans, k));
    let p = reg.spans[k].parent.unwrap();
    if p != root {
        lemma_descends_same_root(reg, root, p as int);
    }
}

proof fn lemma_subtree_spliced(reg: RegistryView, f: FilterView, root: int, k: int, d: nat)
    requires
        reg.wf(),
        0 <= root < reg.spans.len(),
        descends(reg, root, k),
        d == enabled_depth(reg, f, root, k) + if f.enables(reg.spans[k].metadata) {
            0nat
        } else {
            1nat
        },
    ensures
        forall|x: int|
            0 <= x < subtree_lines(reg, f, k, d).len() ==> spliced_line(
                reg,
                f,
                root,
                #[trigger] subtree_lines(reg, f, k, d)[x],
            ),
    decreases reg.spans.len() - k, reg.spans.len() + 1,
{
    let n = reg.spans.len() as int;
    lemma_descends_below(reg, root, k);
    let s = subtree_lines(reg, f, k, d);
    if f.enables(reg.spans[k].metadata) {
        lemma_children_spliced(reg, f, root, k, n, d + 1);
        let c = children_lines(reg, f, k, n, d + 1);
        assert forall|x: int| 0 <= x < s.len() implies spliced_line(reg, f, root, #[trigger] s[x]) by {
            if x > 0 {
                assert(s[x] == c[x - 1]);
            } else {
                assert(s[x].id as int == k);
            }
        }
    } else {
        lemma_children_spliced(reg, f, root, k, n, d);
        assert(s == children_lines(reg, f, k, n, d));
    }
}

proof fn lemma_children_spliced(reg: RegistryView, f: FilterView, root: int, i: int, j: int, d: nat)
    requires
        reg.wf(),
        0 <= root < reg.spans.len(),
        i == root || descends(reg, root, i),
        d == enabled_depth(reg, f, root, i) + 1,
    ensures
        forall|x: int|
            0 <= x < children_lines(reg, f, i, j, d).len() ==> spliced_line(
                reg,
                f,
                root,
                #[trigger] children_lines(reg, f, i, j, d)[x],
            ),
    decreases reg.spans.len() - i, j,
{
    if 0 <= i && i < j - 1 && j <= reg.spans.len() {
        lemma_children_spliced(reg, f, root, i, j - 1, d);
        let k = j - 1;
        if reg.spans[k].parent == Some(i as u64) {
            assert(span_ok(reg.spans, k));
            if i != root {
                lemma_descends_below(reg, root, i);
            }
            assert(descends(reg, root, k));
            lemma_subtree_spliced(reg, f, root, k, d);
        }
        let a = children_lines(reg, f, i, j - 1, d);
        let s = children_lines(reg, f, i, j, d);
        assert forall|x: int| 0 <= x < s.len() implies spliced_line(reg, f, root, #[trigger] s[x]) by {
            if x < a.len() {
                assert(s[x] == a[x]);
            } else {
                assert(s[x] == subtree_lines(reg, f, k, d)[x - a.len()]);
            }
        }
    }
}

/// The child of `i` on the path from `i` down to `k`.
pub open spec fn child_towards(reg: RegistryView, i: int, k: int) -> int
    decreases k,
{
    if 0 <= k < reg.spans.len() {
        match reg.spans[k].parent {
            Some(p) => if p == i || p >= k {
                k
            } else {
                child_towards(reg, i, p as int)
            },
            None => k,
        }
    } else {
        k
    }
}

proof fn lemma_child_towards(reg: RegistryView, i: int, k: int)
    requires
        descends(reg, i, k),
    ensures
        reg.spans[child_towards(reg, i, k)].parent == Some(i as u64),
        i < child_towards(reg, i, k) <= k,
        child_towards(reg, i, k) == k || descends(reg, child_towards(reg, i, k), k),
    decreases k,
{
    lemma_descends_below(reg, i, k);
    let p = reg.spans[k].parent.unwrap();
    if p != i {
        lemma_child_towards(reg, i, p as int);
        let c = child_towards(reg, i, p as int);
        if c != p {
            assert(descends(reg, c, p as int));
        }
        assert(descends(reg, c, k));
    }
}

proof fn lemma_subtree_complete(reg: RegistryView, f: FilterView, m: int, d: nat, k: int)
    requires
        reg.wf(),
        0 <= m < reg.spans.len(),
        k == m || descends(reg, m, k),
        f.enables(reg.spans[k].metadata),
    ensures
        exists|x: int|
            0 <= x < subtree_lines(reg, f, m, d).len() && (#[trigger] subtree_lines(
                reg,
                f,
                m,
                d,
            )[x]).id == k,
    decreases reg.spans.len() - m, reg.spans.len() + 1,
{
    let n = reg.spans.len() as int;
    let s = subtree_lines(reg, f, m, d);
    if k == m {
        assert(s[0].id == k);
    } else {
        lemma_descends_below(reg, m, k);
        lemma_child_towards(reg, m, k);
        if f.enables(reg.spans[m].metadata) {
            lemma_children_complete(reg, f, m, n, d + 1, k);
            let c = children_lines(reg, f, m, n, d + 1);
            let x = choose|x: int| 0 <= x < c.len() && (#[trigger] c[x]).id == k;
            assert(s[x + 1] == c[x]);
        } else {
            lemma_children_complete(reg, f, m, n, d, k);
            assert(s == children_lines(reg, f, m, n, d));
        }
    }
}

proof fn lemma_children_complete(reg: RegistryView, f: FilterView, i: int, j: int, d: nat, k: int)
    requires
        reg.wf(),
        0 <= i,
        j <= reg.spans.len(),
        descends(reg, i, k),
        child_towards(reg, i, k) < j,
        f.enables(reg.spans[k].metadata),
    ensures
        exists|x: int|
            0 <= x < children_lines(reg, f, i, j, d).len() && (#[trigger] children_lines(
                reg,
                f,
                i,
                j,
                d,
            )[x]).id == k,
    decreases reg.spans.len() - i, j,
{
    lemma_child_towards(reg, i, k);
    lemma_descends_below(reg, i, k);
    let c = child_towards(reg, i, k);
    let a = children_lines(reg, f, i, j - 1, d);
    let s = children_lines(reg, f, i, j, d);
    if c == j - 1 {
        lemma_subtree_complete(reg, f, c, d, k);
        let t = subtree_lines(reg, f, c, d);
        let x = choose|x: int| 0 <= x < t.len() && (#[trigger] t[x]).id == k;
        assert(s[a.len() + x] == t[x]);
    } else {
        lemma_children_complete(reg, f, i, j - 1, d, k);
        let x = choose|x: int| 0 <= x < a.len() && (#[trigger] a[x]).id == k;
        assert(s[x] == a[x]);
    }
}

/// Every descendant of the root that the filter lets through is a node of the tree,
/// however many refused spans lie between them.
pub proof fn lemma_enabled_descendants_kept(reg: RegistryView, f: FilterView, root: u64, k: int)
    requires
        reg.wf(),
        reg.contains(root),
        descends(reg, root as int, k),
        f.enables(reg.spans[k].metadata),
    ensures
        exists|x: int|
            1 <= x < span_tree(reg, f, root).len() && (#[trigger] span_tree(reg, f, root)[x]).id
                == k,
{
    let n = reg.spans.len() as int;
    lemma_child_towards(reg, root as int, k);
    lemma_descends_below(reg, root as int, k);
    lemma_children_complete(reg, f, root as int, n, 1, k);
    let c = children_lines(reg, f, root as int, n, 1);
    let x = choose|x: int| 0 <= x < c.len() && (#[trigger] c[x]).id == k;
    assert(span_tree(reg, f, root)[x + 1] == c[x]);
}

/// The root of a queried tree is always its first node, at depth 0, whatever the filter.
pub proof fn lemma_root_never_elided(reg: RegistryView, f: FilterView, root: u64)
    requires
        reg.wf(),
        reg.contains(root),
    ensures
        span_tree(reg, f, root).len() >= 1,
        span_tree(reg, f, root)[0].id == root,
        span_tree(reg, f, root)[0].depth == 0,
        span_tree(reg, f, root)[0].name == display_name(reg.spans[root as int].metadata),
{
}

/// Every node of a queried tree but the root is a descendant of the root that the filter
/// lets through, and its depth is the number of such spans on its path from the root: a
/// refused span never appears, and its enabled descendants move up by one level.
pub proof fn lemma_disabled_spans_spliced(reg: RegistryView, f: FilterView, root: u64)
    requires
        reg.wf(),
        reg.contains(root),
    ensures
        forall|x: int|
            1 <= x < span_tree(reg, f, root).len() ==> spliced_line(
                reg,
                f,
                root as int,
                #[trigger] span_tree(reg, f, root)[x],
            ),
{
    let n = reg.spans.len() as int;
    lemma_children_spliced(reg, f, root as int, root as int, n, 1);
    let c = children_lines(reg, f, root as int, n, 1);
    assert forall|x: int| 1 <= x < span_tree(reg, f, root).len() implies spliced_line(
        reg,
        f,
        root as int,
        #[trigger] span_tree(reg, f, root)[x],
    ) by {
        assert(span_tree(reg, f, root)[x] == c[x - 1]);
    }
}

/// Trees under two spans with different roots share no span.
pub proof fn lemma_roots_isolated(reg: RegistryView, f: FilterView, r1: u64, r2: u64)
    requires
        reg.wf(),
        reg.contains(r1),
        reg.contains(r2),
        reg.spans[r1 as int].root != reg.spans[r2 as int].root,
    ensures
        forall|x: int, y: int|
            0 <= x < span_tree(reg, f, r1).len() && 0 <= y < span_tree(reg, f, r2).len()
                ==> #[trigger] span_tree(reg, f, r1)[x].id != #[trigger] span_tree(
                reg,
                f,
                r2,
            )[y].id,
        forall|x: int|
            0 <= x < span_tree(reg, f, r1).len() ==> reg.spans[#[trigger] span_tree(
                reg,
                f,
                r1,
            )[x].id as int].root == reg.spans[r1 as int].root,
{
    lemma_disabled_spans_spliced(reg, f, r1);
    lemma_disabled_spans_spliced(reg, f, r2);
    assert forall|x: int| 0 <= x < span_tree(reg, f, r1).len() implies reg.spans[
        #[trigger] span_tree(reg, f, r1)[x].id as int].root == reg.spans[r1 as int].root by {
        if x >= 1 {
            lemma_descends_same_root(reg, r1 as int, span_tree(reg, f, r1)[x].id as int);
        }
    }
    assert forall|y: int| 0 <= y < span_tree(reg, f, r2).len() implies reg.spans[
        #[trigger] span_tree(reg, f, r2)[y].id as int].root == reg.spans[r2 as int].root by {
        if y >= 1 {
            lemma_descends_same_root(reg, r2 as int, span_tree(reg, f, r2)[y].id as int);
        }
    }
}

/// The log stream under `root` starts with the root's own records, followed by the
/// subtrees of its children in creation order, whether or not the filter lets a child
/// span itself through.
pub proof fn lemma_logs_root_first(reg: RegistryView, f: FilterView, root: u64)
    requires
        reg.wf(),
        reg.contains(root),
    ensures
        subtree_logs(reg, f, root as int) == node_records(reg, f, root as int) + children_logs(
            reg,
            f,
            root as int,
            reg.spans.len() as int,
        ),
        forall|j: int|
            root < j < reg.spans.len() ==> #[trigger] children_logs(reg, f, root as int, j + 1)
                == children_logs(reg, f, root as int, j) + if reg.spans[j].parent == Some(root) {
                subtree_logs(reg, f, j)
            } else {
                Seq::empty()
            },
{
}

/// Queries read the registry only: asked twice of the same registry and filter, they
/// give the same tree and the same records.
pub proof fn lemma_queries_repeatable(
    reg1: RegistryView,
    reg2: RegistryView,
    f1: FilterView,
    f2: FilterView,
    root: u64,
)
    requires
        reg1 == reg2,
        f1 == f2,
    ensures
        span_tree(reg1, f1, root) == span_tree(reg2, f2, root),
        subtree_logs(reg1, f1, root as int) == subtree_logs(reg2, f2, root as int),
{
}

proof fn lemma_span_logs_update(
    logs: LogsView,
    f: FilterView,
    k: u64,
    i: int,
    e: (MetaView, Seq<FieldView>),
)
    requires
        0 <= i < logs.len(),
        logs[i].0.span_id != Some(k),
        e.0.span_id != Some(k),
    ensures
        span_logs(logs.update(i, e), f, k) == span_logs(logs, f, k),
    decreases logs.len(),
{
    let u = logs.update(i, e);
    if i == logs.len() - 1 {
        assert(u.drop_last() =~= logs.drop_last());
    } else {
        assert(u.drop_last() =~= logs.drop_last().update(i, e));
        lemma_span_logs_update(logs.drop_last(), f, k, i, e);
    }
}

proof fn lemma_span_logs_add_event(
    logs: LogsView,
    f: FilterView,
    k: u64,
    key: MetaView,
    fields: Seq<FieldView>,
)
    requires
        key.span_id != Some(k),
        metadata_unique(logs),
    ensures
        span_logs(add_event(logs, key, fields), f, k) == span_logs(logs, f, k),
{
    if has_entry(logs, key) {
        let i = choose|i: int| 0 <= i < logs.len() && logs[i].0 == key;
        lemma_span_logs_update(logs, f, k, i, (key, merge_all(logs[i].1, fields)));
        assert(add_event(logs, key, fields) =~= logs.update(i, (key, merge_all(logs[i].1, fields))));
    } else {
        let p = logs.push((key, merge_all(Seq::empty(), fields)));
        assert(p.drop_last() =~= logs);
        assert(p.last() == (key, merge_all(Seq::empty(), fields)));
        assert(span_logs(p, f, k) == span_logs(logs, f, k) + Seq::<FieldView>::empty());
        assert(span_logs(p, f, k) =~= span_logs(logs, f, k));
    }
}

/// Two registries with the same spans whose logs agree on every span under root `r`.
pub open spec fn same_logs_under(reg: RegistryView, reg2: RegistryView, f: FilterView, r: u64) -> bool {
    &&& reg2.spans == reg.spans
    &&& forall|m: int|
        0 <= m < reg.spans.len() && reg.spans[m].root == r ==> #[trigger] span_logs(
            reg2.logs,
            f,
            m as u64,
        ) == span_logs(reg.logs, f, m as u64)
}

proof fn lemma_subtree_unchanged(reg: RegistryView, reg2: RegistryView, f: FilterView, r: u64, k: int, d: nat)
    requires
        reg.wf(),
        same_logs_under(reg, reg2, f, r),
        0 <= k < reg.spans.len(),
        reg.spans[k].root == r,
    ensures
        subtree_logs(reg2, f, k) == subtree_logs(reg, f, k),
        subtree_lines(reg2, f, k, d) == subtree_lines(reg, f, k, d),
    decreases reg.spans.len() - k, reg.spans.len() + 1,
{
    let n = reg.spans.len() as int;
    assert(span_logs(reg2.logs, f, k as u64) == span_logs(reg.logs, f, k as u64));
    lemma_children_unchanged(reg, reg2, f, r, k, n, d);
    lemma_children_unchanged(reg, reg2, f, r, k, n, d + 1);
    assert(line_of(reg2, f, k, d) == line_of(reg, f, k, d));
}

proof fn lemma_children_unchanged(
    reg: RegistryView,
    reg2: RegistryView,
    f: FilterView,
    r: u64,
    i: int,
    j: int,
    d: nat,
)
    requires
        reg.wf(),
        same_logs_under(reg, reg2, f, r),
        0 <= i < reg.spans.len(),
        reg.spans[i].root == r,
    ensures
        children_logs(reg2, f, i, j) == children_logs(reg, f, i, j),
        children_lines(reg2, f, i, j, d) == children_lines(reg, f, i, j, d),
    decreases reg.spans.len() - i, j,
{
    if 0 <= i && i < j - 1 && j <= reg.spans.len() {
        lemma_children_unchanged(reg, reg2, f, r, i, j - 1, d);
        let k = j - 1;
        if reg.spans[k].parent == Some(i as u64) {
            assert(span_ok(reg.spans, k));
            lemma_subtree_unchanged(reg, reg2, f, r, k, d);
        }
    }
}

/// Recording an event inside a span of another root changes neither the tree nor the
/// records returned for root `r1`.
pub proof fn lemma_logs_isolated(
    reg: RegistryView,
    f: FilterView,
    r1: u64,
    s: u64,
    metadata: MetaView,
    fields: Seq<FieldView>,
)
    requires
        reg.wf(),
        reg.contains(r1),
        reg.contains(s),
        reg.spans[s as int].root != reg.spans[r1 as int].root,
    ensures
        ({
            let after = RegistryView {
                spans: reg.spans,
                logs: add_event(reg.logs, event_key(metadata, Some(s)), fields),
            };
            &&& subtree_logs(after, f, r1 as int) == subtree_logs(reg, f, r1 as int)
            &&& span_tree(after, f, r1) == span_tree(reg, f, r1)
        }),
{
    let after = RegistryView {
        spans: reg.spans,
        logs: add_event(reg.logs, event_key(metadata, Some(s)), fields),
    };
    let r = reg.spans[r1 as int].root;
    assert forall|m: int| 0 <= m < reg.spans.len() && reg.spans[m].root == r implies #[trigger] span_logs(
        after.logs,
        f,
        m as u64,
    ) == span_logs(reg.logs, f, m as u64) by {
        lemma_span_logs_add_event(reg.logs, f, m as u64, event_key(metadata, Some(s)), fields);
    }
    lemma_subtree_unchanged(reg, after, f, r, r1 as int, 0);
    lemma_children_unchanged(reg, after, f, r, r1 as int, reg.spans.len() as int, 1);
    assert(span_tree(after, f, r1) =~= span_tree(reg, f, r1));
}

proof fn lemma_children_logs_prefix(reg: RegistryView, f: FilterView, i: int, a: int, b: int)
    requires
        0 <= i,
        a <= b <= reg.spans.len(),
    ensures
        children_logs(reg, f, i, a).len() <= children_logs(reg, f, i, b).len(),
        children_logs(reg, f, i, b).subrange(0, children_logs(reg, f, i, a).len() as int)
            == children_logs(reg, f, i, a),
    decreases b - a,
{
    if a < b {
        lemma_children_logs_prefix(reg, f, i, a, b - 1);
        let pa = children_logs(reg, f, i, a);
        let pb = children_logs(reg, f, i, b - 1);
        let q = children_logs(reg, f, i, b);
        if i < b - 1 {
            assert(q.subrange(0, pb.len() as int) =~= pb);
            assert(q.subrange(0, pa.len() as int) =~= pb.subrange(0, pa.len() as int));
        } else {
            assert(pa =~= Seq::<FieldView>::empty());
        }
    } else {
        assert(children_logs(reg, f, i, b).subrange(0, children_logs(reg, f, i, a).len() as int)
            =~= children_logs(reg, f, i, a));
    }
}

/// Where the block of child `c` starts in the log stream of span `k`.
pub open spec fn child_block_start(reg: RegistryView, f: FilterView, k: int, c: int) -> int {
    (node_records(reg, f, k).len() + children_logs(reg, f, k, c).len()) as int
}

/// In the log stream under span `k`, `k`'s own records come first; then the records of
/// each child's subtree form one block, at `child_block_start`; and the block of a child
/// created earlier ends before the block of one created later starts.
pub proof fn lemma_logs_child_blocks(reg: RegistryView, f: FilterView, k: int, c1: int, c2: int)
    requires
        reg.wf(),
        0 <= k < c1 < c2 < reg.spans.len(),
        reg.spans[c1].parent == Some(k as u64),
        reg.spans[c2].parent == Some(k as u64),
    ensures
        subtree_logs(reg, f, k).subrange(0, node_records(reg, f, k).len() as int) == node_records(
            reg,
            f,
            k,
        ),
        subtree_logs(reg, f, k).subrange(
            child_block_start(reg, f, k, c1),
            child_block_start(reg, f, k, c1) + subtree_logs(reg, f, c1).len(),
        ) == subtree_logs(reg, f, c1),
        child_block_start(reg, f, k, c1) + subtree_logs(reg, f, c1).len() <= child_block_start(
            reg,
            f,
            k,
            c2,
        ),
{
    let n = reg.spans.len() as int;
    let own = node_records(reg, f, k);
    let all = subtree_logs(reg, f, k);
    let rest = children_logs(reg, f, k, n);
    assert(all == own + rest);
    assert(all.subrange(0, own.len() as int) =~= own);
    lemma_children_logs_prefix(reg, f, k, c1 + 1, n);
    lemma_children_logs_prefix(reg, f, k, c1 + 1, c2);
    let before = children_logs(reg, f, k, c1);
    let upto = children_logs(reg, f, k, c1 + 1);
    let sub = subtree_logs(reg, f, c1);
    assert(upto == before + sub);
    let start = child_block_start(reg, f, k, c1);
    assert(all.subrange(start, start + sub.len()) =~= sub) by {
        assert forall|x: int| 0 <= x < sub.len() implies all.subrange(start, start + sub.len())[x]
            == sub[x] by {
            assert(all[start + x] == rest[before.len() + x]);
            assert(rest[before.len() + x] == rest.subrange(0, upto.len() as int)[before.len() + x]);
            assert(upto[before.len() + x] == sub[x]);
        }
    }
}

/// Every span at or below child `c` of `i` lies below `i`, on the path through `c`.
proof fn lemma_under_child(reg: RegistryView, i: int, c: int, x: int)
    requires
        reg.wf(),
        0 <= i < reg.spans.len(),
        0 <= c < reg.spans.len(),
        reg.spans[c].parent == Some(i as u64),
        x == c || descends(reg, c, x),
    ensures
        descends(reg, i, x),
        child_towards(reg, i, x) == c,
    decreases x,
{
    assert(span_ok(reg.spans, c));
    assert(i < c);
    assert(descends(reg, i, c));
    assert(child_towards(reg, i, c) == c);
    if x != c {
        lemma_descends_below(reg, c, x);
        let p = reg.spans[x].parent.unwrap();
        if p != c {
            lemma_descends_below(reg, c, p as int);
            lemma_under_child(reg, i, c, p as int);
        }
        assert(p as int != i);
        assert(descends(reg, i, p as int));
        assert(p < x);
        assert(descends(reg, i, x));
        assert(child_towards(reg, i, x) == child_towards(reg, i, p as int));
    }
}

/// Ids are distinct and lie at or below `k`.
pub open spec fn ids_distinct_under(reg: RegistryView, lines: Seq<SpanLine>, k: int) -> bool {
    &&& forall|x: int|
        0 <= x < lines.len() ==> (#[trigger] lines[x]).id as int == k || descends(
            reg,
            k,
            lines[x].id as int,
        )
    &&& forall|x: int, y: int|
        0 <= x < y < lines.len() ==> (#[trigger] lines[x]).id != (#[trigger] lines[y]).id
}

proof fn lemma_subtree_distinct(reg: RegistryView, f: FilterView, k: int, d: nat)
    requires
        reg.wf(),
        0 <= k < reg.spans.len(),
    ensures
        ids_distinct_under(reg, subtree_lines(reg, f, k, d), k),
    decreases reg.spans.len() - k, reg.spans.len() + 1,
{
    let n = reg.spans.len() as int;
    let s = subtree_lines(reg, f, k, d);
    if f.enables(reg.spans[k].metadata) {
        lemma_children_distinct(reg, f, k, n, d + 1);
        let c = children_lines(reg, f, k, n, d + 1);
        assert forall|x: int| 1 <= x < s.len() implies s[x] == c[x - 1] && k < s[x].id by {
            lemma_descends_below(reg, k, c[x - 1].id as int);
        }
        assert(s[0].id as int == k);
    } else {
        lemma_children_distinct(reg, f, k, n, d);
        assert(s == children_lines(reg, f, k, n, d));
    }
}

proof fn lemma_children_distinct(reg: RegistryView, f: FilterView, i: int, j: int, d: nat)
    requires
        reg.wf(),
        0 <= i < reg.spans.len(),
    ensures
        ({
            let s = children_lines(reg, f, i, j, d);
            &&& ids_distinct_under(reg, s, i)
            &&& forall|x: int|
                0 <= x < s.len() ==> descends(reg, i, (#[trigger] s[x]).id as int) && child_towards(
                    reg,
                    i,
                    s[x].id as int,
                ) < j
        }),
    decreases reg.spans.len() - i, j,
{
    if 0 <= i && i < j - 1 && j <= reg.spans.len() {
        lemma_children_distinct(reg, f, i, j - 1, d);
        let c = j - 1;
        let a = children_lines(reg, f, i, c, d);
        let s = children_lines(reg, f, i, j, d);
        if reg.spans[c].parent == Some(i as u64) {
            lemma_subtree_distinct(reg, f, c, d);
            let b = subtree_lines(reg, f, c, d);
            assert(s == a + b);
            assert forall|x: int| 0 <= x < b.len() implies descends(reg, i, (#[trigger] b[x]).id as int)
                && child_towards(reg, i, b[x].id as int) == c by {
                lemma_under_child(reg, i, c, b[x].id as int);
            }
            assert forall|x: int| 0 <= x < s.len() implies descends(reg, i, (#[trigger] s[x]).id as int)
                && child_towards(reg, i, s[x].id as int) < j by {
                if x >= a.len() {
                    assert(s[x] == b[x - a.len()]);
                }
            }
            assert forall|x: int, y: int| 0 <= x < y < s.len() implies (#[trigger] s[x]).id != (
            #[trigger] s[y]).id by {
                if x < a.len() && y >= a.len() {
                    assert(s[y] == b[y - a.len()]);
                    assert(child_towards(reg, i, a[x].id as int) < c);
                } else if x >= a.len() {
                    assert(s[x] == b[x - a.len()]);
                    assert(s[y] == b[y - a.len()]);
                }
            }
        } else {
            assert(s =~= a);
        }
    }
}

/// No span appears twice in a queried tree.
pub proof fn lemma_tree_nodes_distinct(reg: RegistryView, f: FilterView, root: u64)
    requires
        reg.wf(),
        reg.contains(root),
    ensures
        forall|x: int, y: int|
            0 <= x < y < span_tree(reg, f, root).len() ==> (#[trigger] span_tree(reg, f, root)[x]).id
                != (#[trigger] span_tree(reg, f, root)[y]).id,
{
    let n = reg.spans.len() as int;
    let t = span_tree(reg, f, root);
    lemma_children_distinct(reg, f, root as int, n, 1);
    let c = children_lines(reg, f, root as int, n, 1);
    assert forall|x: int| 1 <= x < t.len() implies t[x] == c[x - 1] && root < t[x].id by {
        lemma_descends_below(reg, root as int, c[x - 1].id as int);
    }
}

/// `reg2` is `reg` with one more span at the end, created outside root `r`; earlier spans
/// keep their metadata, parent and fields.
pub open spec fn grown_outside(reg: RegistryView, reg2: RegistryView, r: u64) -> bool {
    let n = reg.spans.len() as int;
    &&& reg2.spans.len() == n + 1
    &&& reg2.logs == reg.logs
    &&& forall|m: int|
        0 <= m < n ==> {
            &&& (#[trigger] reg2.spans[m]).metadata == reg.spans[m].metadata
            &&& reg2.spans[m].parent == reg.spans[m].parent
            &&& reg2.spans[m].fields == reg.spans[m].fields
        }
    &&& match reg2.spans[n].parent {
        Some(p) => 0 <= p < n && reg.spans[p as int].root != r,
        None => true,
    }
}

proof fn lemma_subtree_grown(reg: RegistryView, reg2: RegistryView, f: FilterView, r: u64, k: int, d: nat)
    requires
        reg.wf(),
        grown_outside(reg, reg2, r),
        0 <= k < reg.spans.len(),
        reg.spans[k].root == r,
    ensures
        subtree_lines(reg2, f, k, d) == subtree_lines(reg, f, k, d),
        subtree_logs(reg2, f, k) == subtree_logs(reg, f, k),
    decreases reg.spans.len() - k, reg.spans.len() + 1,
{
    let n = reg.spans.len() as int;
    assert(reg2.spans[k].metadata == reg.spans[k].metadata);
    lemma_children_grown(reg, reg2, f, r, k, n, d);
    lemma_children_grown(reg, reg2, f, r, k, n, d + 1);
    assert(reg2.spans[n].parent != Some(k as u64));
    assert(children_lines(reg2, f, k, n + 1, d) =~= children_lines(reg2, f, k, n, d));
    assert(children_lines(reg2, f, k, n + 1, d + 1) =~= children_lines(reg2, f, k, n, d + 1));
    assert(children_logs(reg2, f, k, n + 1) =~= children_logs(reg2, f, k, n));
    assert(node_records(reg2, f, k) == node_records(reg, f, k));
    assert(line_of(reg2, f, k, d) == line_of(reg, f, k, d));
}

proof fn lemma_children_grown(
    reg: RegistryView,
    reg2: RegistryView,
    f: FilterView,
    r: u64,
    i: int,
    j: int,
    d: nat,
)
    requires
        reg.wf(),
        grown_outside(reg, reg2, r),
        0 <= i < reg.spans.len(),
        reg.spans[i].root == r,
        j <= reg.spans.len(),
    ensures
        children_lines(reg2, f, i, j, d) == children_lines(reg, f, i, j, d),
        children_logs(reg2, f, i, j) == children_logs(reg, f, i, j),
    decreases reg.spans.len() - i, j,
{
    if 0 <= i && i < j - 1 && j <= reg.spans.len() {
        lemma_children_grown(reg, reg2, f, r, i, j - 1, d);
        let k = j - 1;
        assert(reg2.spans[k].parent == reg.spans[k].parent);
        if reg.spans[k].parent == Some(i as u64) {
            assert(span_ok(reg.spans, k));
            lemma_subtree_grown(reg, reg2, f, r, k, d);
        }
    }
}

/// Creating a span outside the root of `r1` changes neither the tree nor the records
/// returned for `r1`: ids are never reused, so nothing needs renaming.
pub proof fn lemma_other_root_spans_isolated(
    reg: RegistryView,
    f: FilterView,
    r1: u64,
    metadata: MetaView,
    parent: Option<u64>,
)
    requires
        reg.wf(),
        reg.contains(r1),
        match parent {
            Some(p) => reg.contains(p) && reg.spans[p as int].root != reg.spans[r1 as int].root,
            None => true,
        },
    ensures
        span_tree(reg.with_span(metadata, parent), f, r1) == span_tree(reg, f, r1),
        subtree_logs(reg.with_span(metadata, parent), f, r1 as int) == subtree_logs(reg, f, r1 as int),
{
    let reg2 = reg.with_span(metadata, parent);
    let r = reg.spans[r1 as int].root;
    let n = reg.spans.len() as int;
    assert forall|m: int| 0 <= m < n implies {
        &&& (#[trigger] reg2.spans[m]).metadata == reg.spans[m].metadata
        &&& reg2.spans[m].parent == reg.spans[m].parent
        &&& reg2.spans[m].fields == reg.spans[m].fields
    } by {}
    assert(grown_outside(reg, reg2, r));
    assert(span_ok(reg.spans, r1 as int));
    lemma_subtree_grown(reg, reg2, f, r, r1 as int, 0);
    lemma_children_grown(reg, reg2, f, r, r1 as int, n, 1);
    assert(reg2.spans[n].parent != Some(r1));
    assert(children_lines(reg2, f, r1 as int, n + 1, 1) =~= children_lines(reg2, f, r1 as int, n, 1));
    assert(span_tree(reg2, f, r1) =~= span_tree(reg, f, r1));
}

} // verus!
