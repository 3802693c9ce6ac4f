use vstd::prelude::*;

verus! {

/// Verbosity of a span or an event, from the most severe to the most verbose.
#[derive(Clone, Copy, Debug, PartialEq, Eq, Structural)]
pub enum Level {
    Error,
    Warn,
    Info,
    Debug,
    Trace,
}

impl Level {
    /// Position of the level, counted from `Error` towards `Trace`.
    pub open spec fn rank(self) -> nat {
        match self {
            Level::Error => 0,
            Level::Warn => 1,
            Level::Info => 2,
            Level::Debug => 3,
            Level::Trace => 4,
        }
    }

    pub fn verbosity(&self) -> (r: u8)
        ensures
            r as nat == self.rank(),
    {
        match self {
            Level::Error => 0,
            Level::Warn => 1,
            Level::Info => 2,
            Level::Debug => 3,
            Level::Trace => 4,
        }
    }

    /// True when `self` is at least as verbose as `other`.
    pub fn admits(&self, other: &Level) -> (r: bool)
        ensures
            r == (self.rank() >= other.rank()),
    {
        self.verbosity() >= other.verbosity()
    }
}

/// A recorded value.
#[derive(Clone, Debug, PartialEq, Eq)]
pub enum RecordValue {
    Bool(bool),
    I64(i64),
    U64(u64),
    Str(String),
    Debug(String),
}

/// The mathematical value of a [`RecordValue`].
pub enum ValueView {
    Bool(bool),
    I64(i64),
    U64(u64),
    Str(Seq<char>),
    Debug(Seq<char>),
}

impl View for RecordValue {
    type V = ValueView;

    open spec fn view(&self) -> ValueView {
        match self {
            RecordValue::Bool(b) => ValueView::Bool(*b),
            RecordValue::I64(v) => ValueView::I64(*v),
            RecordValue::U64(v) => ValueView::U64(*v),
            RecordValue::Str(s) => ValueView::Str(s@),
            RecordValue::Debug(s) => ValueView::Debug(s@),
        }
    }
}

impl RecordValue {
    pub fn same_as(&self, other: &RecordValue) -> (r: bool)
        ensures
            r == (self@ == other@),
    {
        match self {
            RecordValue::Bool(a) => match other {
                RecordValue::Bool(b) => *a == *b,
                _ => false,
            },
            RecordValue::I64(a) => match other {
                RecordValue::I64(b) => *a == *b,
                _ => false,
            },
            RecordValue::U64(a) => match other {
                RecordValue::U64(b) => *a == *b,
                _ => false,
            },
            RecordValue::Str(a) => match other {
                RecordValue::Str(b) => a.eq(b),
                _ => false,
            },
            RecordValue::Debug(a) => match other {
                RecordValue::Debug(b) => a.eq(b),
                _ => false,
            },
        }
    }

    pub fn duplicate(&self) -> (r: RecordValue)
        ensures
            r@ == self@,
    {
        match self {
            RecordValue::Bool(b) => RecordValue::Bool(*b),
            RecordValue::I64(v) => RecordValue::I64(*v),
            RecordValue::U64(v) => RecordValue::U64(*v),
            RecordValue::Str(s) => RecordValue::Str(s.clone()),
            RecordValue::Debug(s) => RecordValue::Debug(s.clone()),
        }
    }
}

/// Whether two strings hold the same characters.
pub fn str_eq(a: &str, b: &str) -> (r: bool)
    ensures
        r == (a@ == b@),
{
    let n = a.unicode_len();
    if n != b.unicode_len() {
        return false;
    }
    let mut i: usize = 0;
    while i < n
        invariant
            0 <= i <= n,
            n == a@.len(),
            n == b@.len(),
            forall|k: int| 0 <= k < i ==> a@[k] == b@[k],
        decreases n - i,
    {
        if a.get_char(i) != b.get_char(i) {
            return false;
        }
        i += 1;
    }
    assert(a@ =~= b@);
    true
}

/// One recorded field: its name and its value.
pub type Record = (String, RecordValue);

pub type FieldView = (Seq<char>, ValueView);

pub fn copy_record(r: &Record) -> (c: Record)
    ensures
        c@ == r@,
{
    (r.0.clone(), r.1.duplicate())
}

/// Appends copies of `src` to `dst`.
pub fn extend_records(dst: &mut Vec<Record>, src: &Vec<Record>)
    ensures
        final(dst)@.map_values(|r: Record| r@) == old(dst)@.map_values(|r: Record| r@)
            + src@.map_values(|r: Record| r@),
{
    let ghost start = dst@;
    let n0 = dst.len();
    let mut i: usize = 0;
    while i < src.len()
        invariant
            0 <= i <= src@.len(),
            n0 == start.len(),
            dst@.len() == n0 + i,
            forall|k: int| 0 <= k < n0 ==> dst@[k]@ == start[k]@,
            forall|k: int| 0 <= k < i ==> dst@[n0 + k]@ == src@[k]@,
        decreases src@.len() - i,
    {
        let c = copy_record(&src[i]);
        dst.push(c);
        i += 1;
    }
    assert(dst@.map_values(|r: Record| r@) =~= start.map_values(|r: Record| r@) + src@.map_values(
        |r: Record| r@,
    ));
}

pub open spec fn fields_of(v: Seq<Record>) -> Seq<FieldView> {
    v.map_values(|r: Record| r@)
}

/// No two fields share a name.
pub open spec fn names_unique(fields: Seq<FieldView>) -> bool {
    forall|i: int, j: int|
        0 <= i < fields.len() && 0 <= j < fields.len() && i != j ==> fields[i].0 != fields[j].0
}

pub open spec fn has_field(fields: Seq<FieldView>, name: Seq<char>) -> bool {
    exists|i: int| 0 <= i < fields.len() && fields[i].0 == name
}

/// Sets field `name` to `value`: in place if the name is there, else at the end.
pub open spec fn merge_field(fields: Seq<FieldView>, name: Seq<char>, value: ValueView) -> Seq<
    FieldView,
> {
    if has_field(fields, name) {
        fields.update(choose|i: int| 0 <= i < fields.len() && fields[i].0 == name, (name, value))
    } else {
        fields.push((name, value))
    }
}

/// Merges the fields of `added` into `fields` one after the other, so that the last
/// write to a name wins.
pub open spec fn merge_all(fields: Seq<FieldView>, added: Seq<FieldView>) -> Seq<FieldView>
    decreases added.len(),
{
    if added.len() == 0 {
        fields
    } else {
        merge_field(merge_all(fields, added.drop_last()), added.last().0, added.last().1)
    }
}

/// Sets field `name` of `dst` to `value`, keeping the names unique.
pub fn merge_record(dst: &mut Vec<Record>, name: String, value: RecordValue)
    requires
        names_unique(fields_of(old(dst)@)),
    ensures
        fields_of(final(dst)@) == merge_field(fields_of(old(dst)@), name@, value@),
        names_unique(fields_of(final(dst)@)),
{
    let ghost fields = fields_of(dst@);
    let mut i: usize = 0;
    let mut found = false;
    while i < dst.len() && !found
        invariant
            0 <= i <= dst@.len(),
            fields == fields_of(dst@),
            fields == fields_of(old(dst)@),
            names_unique(fields),
            forall|k: int| 0 <= k < i ==> fields[k].0 != name@,
            found ==> i < fields.len() && fields[i as int].0 == name@,
        decreases dst@.len() - i + if found { 0int } else { 1int },
    {
        assert(fields[i as int] == dst@[i as int]@);
        if dst[i].0.eq(&name) {
            found = true;
        } else {
            i += 1;
        }
    }
    let ghost merged = merge_field(fields, name@, value@);
    if found {
        proof {
            assert(has_field(fields, name@));
            let c = choose|c: int| 0 <= c < fields.len() && fields[c].0 == name@;
            assert(c == i as int);
        }
        dst.set(i, (name, value));
    } else {
        dst.push((name, value));
    }
    assert(fields_of(dst@) =~= merged);
    assert forall|a: int, b: int|
        0 <= a < merged.len() && 0 <= b < merged.len() && a != b implies merged[a].0
        != merged[b].0 by {
        if !has_field(fields, name@) {
            assert(a < fields.len() ==> merged[a] == fields[a]);
            assert(b < fields.len() ==> merged[b] == fields[b]);
        }
    }
}

/// Merges every field of `src`, in order, into `dst`.
pub fn merge_records(dst: &mut Vec<Record>, src: &Vec<Record>)
    requires
        names_unique(fields_of(old(dst)@)),
    ensures
        fields_of(final(dst)@) == merge_all(fields_of(old(dst)@), fields_of(src@)),
        names_unique(fields_of(final(dst)@)),
{
    let mut i: usize = 0;
    while i < src.len()
        invariant
            0 <= i <= src@.len(),
            fields_of(dst@) == merge_all(fields_of(old(dst)@), fields_of(src@.subrange(0, i as int))),
            names_unique(fields_of(dst@)),
        decreases src@.len() - i,
    {
        let r = copy_record(&src[i]);
        proof {
            let next = fields_of(src@.subrange(0, i + 1));
            assert(next.drop_last() =~= fields_of(src@.subrange(0, i as int)));
            assert(next.last() == src@[i as int]@);
        }
        merge_record(dst, r.0, r.1);
        i += 1;
    }
    assert(src@.subrange(0, i as int) =~= src@);
}

/// What a span or an event was created with.
#[derive(Clone, Debug, PartialEq, Eq)]
pub struct Metadata {
    pub name: String,
    pub target: String,
    pub level: Level,
    pub span_id: Option<u64>,
}

pub struct MetaView {
    pub name: Seq<char>,
    pub target: Seq<char>,
    pub level: Level,
    pub span_id: Option<u64>,
}

impl View for Metadata {
    type V = MetaView;

    open spec fn view(&self) -> MetaView {
        MetaView {
            name: self.name@,
            target: self.target@,
            level: self.level,
            span_id: self.span_id,
        }
    }
}

impl Metadata {
    pub fn new(name: String, target: String, level: Level) -> (r: Metadata)
        ensures
            r@ == (MetaView { name: name@, target: target@, level, span_id: None }),
    {
        Metadata { name, target, level, span_id: None }
    }

    pub fn with_span_id(self, id: u64) -> (r: Metadata)
        ensures
            r@ == (MetaView { span_id: Some(id), ..self@ }),
    {
        Metadata { span_id: Some(id), ..self }
    }

    pub fn same_as(&self, other: &Metadata) -> (r: bool)
        ensures
            r == (self@ == other@),
    {
        let same_id = match (self.span_id, other.span_id) {
            (Some(a), Some(b)) => a == b,
            (None, None) => true,
            _ => false,
        };
        self.name.eq(&other.name) && self.target.eq(&other.target) && self.level == other.level
            && same_id
    }

    pub fn duplicate(&self) -> (r: Metadata)
        ensures
            r@ == self@,
    {
        Metadata {
            name: self.name.clone(),
            target: self.target.clone(),
            level: self.level,
            span_id: self.span_id,
        }
    }
}

/// The name of the field that holds a log message.
pub open spec fn message_field() -> Seq<char> {
    seq!['m', 'e', 's', 's', 'a', 'g', 'e']
}

/// An ordered list of recorded fields.
#[derive(Clone, Debug, Default, PartialEq, Eq)]
pub struct Records(Vec<Record>);

impl View for Records {
    type V = Seq<FieldView>;

    closed spec fn view(&self) -> Seq<FieldView> {
        self.0@.map_values(|r: Record| r@)
    }
}

impl Records {
    /// Creates a `Records` from log entries.
    pub fn new(records: Vec<Record>) -> (r: Records)
        ensures
            r@ == records@.map_values(|r: Record| r@),
    {
        Records(records)
    }

    pub fn len(&self) -> (r: usize)
        ensures
            r == self@.len(),
    {
        self.0.len()
    }

    pub fn get(&self, i: usize) -> (r: &Record)
        requires
            i < self@.len(),
        ensures
            r@ == self@[i as int],
    {
        &self.0[i]
    }

    /// Checks whether a `message` field with the given debug text was recorded.
    pub fn contains_message(&self, lookup: &str) -> (r: bool)
        ensures
            r == exists|i: int|
                0 <= i < self@.len() && self@[i] == (message_field(), ValueView::Debug(lookup@)),
    {
        let field = String::from_str("message");
        proof {
            reveal_strlit("message");
            assert(field@ =~= message_field());
        }
        self.contains_value(field.as_str(), RecordValue::Debug(String::from_str(lookup)))
    }

    /// Checks whether a field of the given name holds the given value.
    pub fn contains_value(&self, field_name: &str, lookup: RecordValue) -> (r: bool)
        ensures
            r == exists|i: int| 0 <= i < self@.len() && self@[i] == (field_name@, lookup@),
    {
        let mut i: usize = 0;
        while i < self.0.len()
            invariant
                0 <= i <= self@.len(),
                forall|k: int| 0 <= k < i ==> self@[k] != (field_name@, lookup@),
            decreases self@.len() - i,
        {
            let entry = &self.0[i];
            assert(self@[i as int] == (entry.0@, entry.1@));
            if str_eq(entry.0.as_str(), field_name) && entry.1.same_as(&lookup) {
                return true;
            }
            i += 1;
        }
        false
    }
}

} // verus!
