use vstd::prelude::*;

use crate::attribute::{Level, MetaView, Metadata};

verus! {

/// `p` is a prefix of `t`.
pub open spec fn is_prefix(p: Seq<char>, t: Seq<char>) -> bool {
    p.len() <= t.len() && t.subrange(0, p.len() as int) == p
}

/// No two overrides share a target prefix.
pub open spec fn keys_unique(ts: Seq<(Seq<char>, Level)>) -> bool {
    forall|i: int, j: int| 0 <= i < ts.len() && 0 <= j < ts.len() && i != j ==> ts[i].0 != ts[j].0
}

/// Override `i` is a prefix of `target`, and no matching override is longer.
pub open spec fn is_longest_match(ts: Seq<(Seq<char>, Level)>, target: Seq<char>, i: int) -> bool {
    &&& 0 <= i < ts.len()
    &&& is_prefix(ts[i].0, target)
    &&& forall|j: int|
        0 <= j < ts.len() && is_prefix(#[trigger] ts[j].0, target) ==> ts[j].0.len() <= ts[i].0.len()
}

/// The mathematical value of a [`Filter`]: a default level and the per-target overrides.
pub struct FilterView {
    pub default_level: Level,
    pub targets: Seq<(Seq<char>, Level)>,
}

impl FilterView {
    pub open spec fn wf(self) -> bool {
        keys_unique(self.targets)
    }

    /// The level of the longest override that prefixes `target`, else the default level.
    pub open spec fn level_for(self, target: Seq<char>) -> Level {
        if exists|i: int| is_longest_match(self.targets, target, i) {
            self.targets[choose|i: int| is_longest_match(self.targets, target, i)].1
        } else {
            self.default_level
        }
    }

    /// The filter lets an item with this metadata through.
    pub open spec fn enables(self, m: MetaView) -> bool {
        self.level_for(m.target).rank() >= m.level.rank()
    }

    pub open spec fn has_key(self, key: Seq<char>) -> bool {
        exists|i: int| 0 <= i < self.targets.len() && self.targets[i].0 == key
    }

    /// Sets the override of `key`, replacing an earlier one.
    pub open spec fn with_target(self, key: Seq<char>, level: Level) -> FilterView {
        FilterView {
            default_level: self.default_level,
            targets: if self.has_key(key) {
                self.targets.update(
                    choose|i: int| 0 <= i < self.targets.len() && self.targets[i].0 == key,
                    (key, level),
                )
            } else {
                self.targets.push((key, level))
            },
        }
    }
}

/// Two overrides that both prefix `target` and have the same length are the same override.
proof fn lemma_same_length_prefixes(ts: Seq<(Seq<char>, Level)>, target: Seq<char>, i: int, j: int)
    requires
        keys_unique(ts),
        0 <= i < ts.len(),
        0 <= j < ts.len(),
        is_prefix(ts[i].0, target),
        is_prefix(ts[j].0, target),
        ts[i].0.len() == ts[j].0.len(),
    ensures
        i == j,
{
}

/// A default level combined with longest-prefix overrides per target.
#[derive(Debug)]
pub struct Filter {
    default_level: Level,
    targets: Vec<(String, Level)>,
}

impl View for Filter {
    type V = FilterView;

    closed spec fn view(&self) -> FilterView {
        FilterView {
            default_level: self.default_level,
            targets: self.targets@.map_values(|e: (String, Level)| (e.0@, e.1)),
        }
    }
}

/// Whether `p` is a prefix of `t`.
fn starts_with(t: &str, p: &str) -> (r: bool)
    ensures
        r == is_prefix(p@, t@),
{
    let pl = p.unicode_len();
    let tl = t.unicode_len();
    if pl > tl {
        return false;
    }
    let mut i: usize = 0;
    while i < pl
        invariant
            0 <= i <= pl,
            pl == p@.len(),
            tl == t@.len(),
            pl <= tl,
            forall|k: int| 0 <= k < i ==> t@[k] == p@[k],
        decreases pl - i,
    {
        if t.get_char(i) != p.get_char(i) {
            return false;
        }
        i += 1;
    }
    assert(t@.subrange(0, pl as int) =~= p@);
    true
}

impl Filter {
    /// A filter with the given default level and no override.
    pub fn new(default_level: Level) -> (r: Filter)
        ensures
            r@ == (FilterView { default_level, targets: Seq::empty() }),
            r@.wf(),
    {
        let r = Filter { default_level, targets: Vec::new() };
        assert(r@.targets =~= Seq::empty());
        r
    }

    /// Sets the level used for targets that start with `key`.
    pub fn with_target(self, key: String, value: Level) -> (r: Filter)
        requires
            self@.wf(),
        ensures
            r@ == self@.with_target(key@, value),
            r@.wf(),
    {
        let ghost before = self@;
        let ghost orig = self.targets@;
        assert(before.targets == orig.map_values(|e: (String, Level)| (e.0@, e.1)));
        let default_level = self.default_level;
        let mut targets = self.targets;
        let mut i: usize = 0;
        while i < targets.len()
            invariant
                0 <= i <= targets@.len(),
                targets@ == orig,
                before.targets == orig.map_values(|e: (String, Level)| (e.0@, e.1)),
                before.wf(),
                before == self@,
                before.default_level == default_level,
                forall|k: int| 0 <= k < i ==> before.targets[k].0 != key@,
            decreases targets@.len() - i,
        {
            assert(before.targets[i as int] == (targets@[i as int].0@, targets@[i as int].1));
            if targets[i].0.eq(&key) {
                proof {
                    assert(before.targets[i as int].0 == key@);
                    assert(before.has_key(key@));
                    let c = choose|c: int|
                        0 <= c < before.targets.len() && before.targets[c].0 == key@;
                    assert(c == i);
                }
                targets.set(i, (key, value));
                let r = Filter { default_level, targets };
                assert(r@.targets =~= before.with_target(key@, value).targets);
                assert(r@ == before.with_target(key@, value));
                return r;
            }
            i += 1;
        }
        targets.push((key, value));
        let r = Filter { default_level, targets };
        assert(r@.targets =~= before.with_target(key@, value).targets);
        r
    }

    /// Whether the filter lets an item with this metadata through.
    pub fn is_enabled(&self, metadata: &Metadata) -> (r: bool)
        requires
            self@.wf(),
        ensures
            r == self@.enables(metadata@),
    {
        let ghost ts = self@.targets;
        let ghost t = metadata.target@;
        let target = metadata.target.as_str();
        let mut best: Option<usize> = None;
        let mut best_len: usize = 0;
        let mut i: usize = 0;
        while i < self.targets.len()
            invariant
                0 <= i <= ts.len(),
                ts == self@.targets,
                ts.len() == self.targets@.len(),
                t == target@,
                match best {
                    Some(b) => {
                        &&& b < i
                        &&& is_prefix(ts[b as int].0, t)
                        &&& best_len == ts[b as int].0.len()
                        &&& forall|j: int|
                            0 <= j < i && is_prefix(#[trigger] ts[j].0, t) ==> ts[j].0.len()
                                <= best_len
                    },
                    None => forall|j: int| 0 <= j < i ==> !is_prefix(#[trigger] ts[j].0, t),
                },
            decreases ts.len() - i,
        {
            let key = self.targets[i].0.as_str();
            assert(key@ == ts[i as int].0);
            if starts_with(target, key) {
                let len = key.unicode_len();
                match best {
                    Some(_) => {
                        if len > best_len {
                            best = Some(i);
                            best_len = len;
                        }
                    },
                    None => {
                        best = Some(i);
                        best_len = len;
                    },
                }
            }
            i += 1;
        }
        let level = match best {
            Some(b) => {
                proof {
                    assert(is_longest_match(ts, t, b as int));
                    let c = choose|c: int| is_longest_match(ts, t, c);
                    lemma_same_length_prefixes(ts, t, b as int, c);
                }
                self.targets[b].1
            },
            None => {
                assert(!exists|c: int| is_longest_match(ts, t, c));
                self.default_level
            },
        };
        level.admits(&metadata.level)
    }
}

} // verus!
