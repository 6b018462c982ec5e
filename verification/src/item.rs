//! A single task record: identity, title, status, priority, timestamps,
//! an optional parent link and a small key-value metadata table.

use vstd::prelude::*;
use crate::sys;

verus! {

/// Priority of a task, ordered `Low < Medium < High`.
#[derive(Debug, Clone, Copy, PartialEq, Eq, Structural)]
pub enum Priority {
    Low,
    Medium,
    High,
}

impl Priority {
    /// Numeric rank of the priority: `Low < Medium < High`.
    pub open spec fn spec_rank(self) -> int {
        match self {
            Priority::Low => 0,
            Priority::Medium => 1,
            Priority::High => 2,
        }
    }

    /// Numeric rank of the priority, usable as a sort key.
    pub fn rank(self) -> (r: u8)
        ensures
            r as int == self.spec_rank(),
    {
        match self {
            Priority::Low => 0,
            Priority::Medium => 1,
            Priority::High => 2,
        }
    }

    /// Human-readable name of the priority.
    pub fn label(self) -> (r: String)
        ensures
            self == Priority::Low ==> r@ == "Low"@,
            self == Priority::Medium ==> r@ == "Medium"@,
            self == Priority::High ==> r@ == "High"@,
    {
        match self {
            Priority::Low => "Low".to_owned(),
            Priority::Medium => "Medium".to_owned(),
            Priority::High => "High".to_owned(),
        }
    }
}

impl Default for Priority {
    /// The default priority is `Medium`.
    fn default() -> (r: Self)
        ensures
            r == Priority::Medium,
    {
        Priority::Medium
    }
}

/// Completion status of a task.
#[derive(Debug, Clone, Copy, PartialEq, Eq, Structural)]
pub enum Status {
    NotStarted,
    InProgress,
    Completed,
}

impl Status {
    /// Human-readable name of the status.
    pub fn label(self) -> (r: String)
        ensures
            self == Status::NotStarted ==> r@ == "Not Started"@,
            self == Status::InProgress ==> r@ == "In Progress"@,
            self == Status::Completed ==> r@ == "Completed"@,
    {
        match self {
            Status::NotStarted => "Not Started".to_owned(),
            Status::InProgress => "In Progress".to_owned(),
            Status::Completed => "Completed".to_owned(),
        }
    }
}

impl Default for Status {
    /// The default status is `NotStarted`.
    fn default() -> (r: Self)
        ensures
            r == Status::NotStarted,
    {
        Status::NotStarted
    }
}

/// The mathematical value of a `TodoItem`: every field as a plain value,
/// with strings as character sequences.
pub struct ItemModel {
    pub id: u128,
    pub title: Seq<char>,
    pub description: Option<Seq<char>>,
    pub status: Status,
    pub priority: Priority,
    pub created_at: u64,
    pub due_date: Option<u64>,
    pub parent_id: Option<u128>,
    pub metadata: Seq<(Seq<char>, Seq<char>)>,
}

/// Does the metadata table hold the key `k`?
pub open spec fn md_has_key(md: Seq<(Seq<char>, Seq<char>)>, k: Seq<char>) -> bool {
    exists|i: int| 0 <= i < md.len() && md[i].0 == k
}

/// Index of the entry holding key `k` (meaningful when the keys are unique).
pub open spec fn md_key_index(md: Seq<(Seq<char>, Seq<char>)>, k: Seq<char>) -> int {
    choose|i: int| 0 <= i < md.len() && md[i].0 == k
}

/// The value stored under key `k`, if any.
pub open spec fn md_lookup(md: Seq<(Seq<char>, Seq<char>)>, k: Seq<char>) -> Option<Seq<char>> {
    if md_has_key(md, k) {
        Some(md[md_key_index(md, k)].1)
    } else {
        None
    }
}

/// No two metadata entries share a key.
pub open spec fn md_keys_unique(md: Seq<(Seq<char>, Seq<char>)>) -> bool {
    forall|i: int, j: int| 0 <= i < j < md.len() ==> md[i].0 != md[j].0
}

/// A task does not hold a due date, a completed status and a time all at
/// once; it is overdue at time `now` when a due date is set, lies strictly
/// before `now`, and the task is not completed.
pub open spec fn overdue_at(m: ItemModel, now: u64) -> bool {
    &&& m.due_date is Some
    &&& m.due_date.unwrap() < now
    &&& m.status != Status::Completed
}

/// A single task in a todo list.
#[derive(Debug)]
pub struct TodoItem {
    id: u128,
    title: String,
    description: Option<String>,
    status: Status,
    priority: Priority,
    created_at: u64,
    due_date: Option<u64>,
    parent_id: Option<u128>,
    metadata: Vec<(String, String)>,
}

impl View for TodoItem {
    type V = ItemModel;

    closed spec fn view(&self) -> ItemModel {
        ItemModel {
            id: self.id,
            title: self.title@,
            description: match self.description {
                Some(s) => Some(s@),
                None => None,
            },
            status: self.status,
            priority: self.priority,
            created_at: self.created_at,
            due_date: self.due_date,
            parent_id: self.parent_id,
            metadata: self.metadata@.map_values(|p: (String, String)| (p.0@, p.1@)),
        }
    }
}

impl Clone for TodoItem {
    /// A clone carries exactly the same model.
    fn clone(&self) -> (res: Self)
        ensures
            res@ == self@,
    {
        let description = match &self.description {
            Some(s) => Some(s.clone()),
            None => None,
        };
        let n = self.metadata.len();
        let mut metadata: Vec<(String, String)> = Vec::new();
        let mut i: usize = 0;
        while i < n
            invariant
                n == self.metadata@.len(),
                i <= n,
                metadata@ =~= self.metadata@.take(i as int),
            decreases n - i,
        {
            let key = self.metadata[i].0.clone();
            let value = self.metadata[i].1.clone();
            metadata.push((key, value));
            proof {
                assert(self.metadata@.take(i as int + 1).drop_last() =~= self.metadata@.take(
                    i as int,
                ));
                assert(metadata@ =~= self.metadata@.take(i as int + 1));
            }
            i += 1;
        }
        proof {
            assert(self.metadata@.take(n as int) =~= self.metadata@);
        }
        let res = TodoItem {
            id: self.id,
            title: self.title.clone(),
            description,
            status: self.status,
            priority: self.priority,
            created_at: self.created_at,
            due_date: self.due_date,
            parent_id: self.parent_id,
            metadata,
        };
        proof {
            assert(res@.metadata =~= self@.metadata);
        }
        res
    }
}

impl TodoItem {
    /// Validity of an item on its own: its metadata keys are unique.
    pub open spec fn wf(self) -> bool {
        md_keys_unique(self@.metadata)
    }

    /// Create a new item with the given title, a fresh identifier, the
    /// current time as creation time, and every other field at its default.
    pub fn new(title: &str) -> (r: TodoItem)
        ensures
            r@.title == title@,
            r@.description is None,
            r@.status == Status::NotStarted,
            r@.priority == Priority::Medium,
            r@.due_date is None,
            r@.parent_id is None,
            r@.metadata == Seq::<(Seq<char>, Seq<char>)>::empty(),
            r.wf(),
    {
        let id = sys::fresh_id();
        let now = sys::now_seconds();
        let r = TodoItem {
            id,
            title: title.to_owned(),
            description: None,
            status: Status::NotStarted,
            priority: Priority::Medium,
            created_at: now,
            due_date: None,
            parent_id: None,
            metadata: Vec::new(),
        };
        assert(r@.metadata =~= Seq::<(Seq<char>, Seq<char>)>::empty());
        r
    }

    /// The item's unique identifier.
    pub fn id(&self) -> (r: u128)
        ensures
            r == self@.id,
    {
        self.id
    }

    /// The item's title.
    pub fn title(&self) -> (r: &str)
        ensures
            r@ == self@.title,
    {
        self.title.as_str()
    }

    /// The item's description, if any.
    pub fn description(&self) -> (r: Option<&str>)
        ensures
            match r {
                Some(s) => self@.description == Some(s@),
                None => self@.description is None,
            },
    {
        match &self.description {
            Some(s) => Some(s.as_str()),
            None => None,
        }
    }

    /// The item's status.
    pub fn status(&self) -> (r: Status)
        ensures
            r == self@.status,
    {
        self.status
    }

    /// The item's priority.
    pub fn priority(&self) -> (r: Priority)
        ensures
            r == self@.priority,
    {
        self.priority
    }

    /// The item's creation time, in seconds since the Unix epoch.
    pub fn created_at(&self) -> (r: u64)
        ensures
            r == self@.created_at,
    {
        self.created_at
    }

    /// The item's due date, if any, in seconds since the Unix epoch.
    pub fn due_date(&self) -> (r: Option<u64>)
        ensures
            r == self@.due_date,
    {
        self.due_date
    }

    /// The identifier of the item's parent, if it has one.
    pub fn parent_id(&self) -> (r: Option<u128>)
        ensures
            r == self@.parent_id,
    {
        self.parent_id
    }

    /// The item's metadata table, as key-value pairs.
    pub fn metadata(&self) -> (r: &Vec<(String, String)>)
        ensures
            r@.map_values(|p: (String, String)| (p.0@, p.1@)) == self@.metadata,
    {
        &self.metadata
    }

    /// The value stored in the metadata table under `key`, if any.
    pub fn get_metadata(&self, key: &str) -> (r: Option<&String>)
        requires
            self.wf(),
        ensures
            match r {
                Some(v) => md_lookup(self@.metadata, key@) == Some(v@),
                None => !md_has_key(self@.metadata, key@),
            },
    {
        let k = key.to_owned();
        let n = self.metadata.len();
        let mut i: usize = 0;
        while i < n
            invariant
                self.wf(),
                k@ == key@,
                n == self.metadata.len(),
                i <= n,
                forall|j: int| 0 <= j < i ==> self@.metadata[j].0 != key@,
            decreases n - i,
        {
            if self.metadata[i].0 == k {
                proof {
                    assert(self@.metadata[i as int].0 == key@);
                    let ci = md_key_index(self@.metadata, key@);
                    assert(self@.metadata[ci].0 == key@);
                    assert(ci == i as int);
                }
                return Some(&self.metadata[i].1);
            }
            i += 1;
        }
        None
    }

    /// Add or replace the metadata value stored under `key`.
    pub fn set_metadata(&mut self, key: &str, value: &str)
        requires
            old(self).wf(),
        ensures
            final(self).wf(),
            md_has_key(old(self)@.metadata, key@) ==> final(self)@ == (ItemModel {
                metadata: old(self)@.metadata.update(
                    md_key_index(old(self)@.metadata, key@),
                    (key@, value@),
                ),
                ..old(self)@
            }),
            !md_has_key(old(self)@.metadata, key@) ==> final(self)@ == (ItemModel {
                metadata: old(self)@.metadata.push((key@, value@)),
                ..old(self)@
            }),
    {
        let k = key.to_owned();
        let n = self.metadata.len();
        let mut i: usize = 0;
        while i < n
            invariant
                old(self).wf(),
                *self == *old(self),
                k@ == key@,
                n == self.metadata.len(),
                i <= n,
                forall|j: int| 0 <= j < i ==> self@.metadata[j].0 != key@,
            decreases n - i,
        {
            if self.metadata[i].0 == k {
                proof {
                    assert(self@.metadata[i as int].0 == key@);
                    let ci = md_key_index(self@.metadata, key@);
                    assert(self@.metadata[ci].0 == key@);
                    assert(ci == i as int);
                }
                self.metadata[i] = (k, value.to_owned());
                proof {
                    let oldmd = old(self)@.metadata;
                    let ci = md_key_index(oldmd, key@);
                    assert(self@.metadata =~= oldmd.update(ci, (key@, value@)));
                }
                return ;
            }
            i += 1;
        }
        self.metadata.push((k, value.to_owned()));
        proof {
            assert(self@.metadata =~= old(self)@.metadata.push((key@, value@)));
        }
    }

    /// Remove the metadata entry stored under `key`, handing back its value.
    pub fn remove_metadata(&mut self, key: &str) -> (r: Option<String>)
        requires
            old(self).wf(),
        ensures
            final(self).wf(),
            match r {
                Some(v) => {
                    &&& md_lookup(old(self)@.metadata, key@) == Some(v@)
                    &&& final(self)@ == (ItemModel {
                        metadata: old(self)@.metadata.remove(
                            md_key_index(old(self)@.metadata, key@),
                        ),
                        ..old(self)@
                    })
                },
                None => {
                    &&& !md_has_key(old(self)@.metadata, key@)
                    &&& *final(self) == *old(self)
                },
            },
    {
        let k = key.to_owned();
        let n = self.metadata.len();
        let mut i: usize = 0;
        while i < n
            invariant
                old(self).wf(),
                *self == *old(self),
                k@ == key@,
                n == self.metadata.len(),
                i <= n,
                forall|j: int| 0 <= j < i ==> self@.metadata[j].0 != key@,
            decreases n - i,
        {
            if self.metadata[i].0 == k {
                proof {
                    assert(self@.metadata[i as int].0 == key@);
                    let ci = md_key_index(self@.metadata, key@);
                    assert(self@.metadata[ci].0 == key@);
                    assert(ci == i as int);
                }
                let entry = self.metadata.remove(i);
                proof {
                    let oldmd = old(self)@.metadata;
                    let ci = md_key_index(oldmd, key@);
                    assert(self@.metadata =~= oldmd.remove(ci));
                }
                return Some(entry.1);
            }
            i += 1;
        }
        None
    }

    /// Set the item's title.
    pub fn set_title(&mut self, title: &str)
        ensures
            final(self)@ == (ItemModel { title: title@, ..old(self)@ }),
    {
        self.title = title.to_owned();
    }

    /// Set or clear the item's description.
    pub fn set_description(&mut self, description: Option<&str>)
        ensures
            final(self)@ == (ItemModel {
                description: match description {
                    Some(s) => Some(s@),
                    None => None,
                },
                ..old(self)@
            }),
    {
        self.description = match description {
            Some(s) => Some(s.to_owned()),
            None => None,
        };
    }

    /// Set the item's status.
    pub fn set_status(&mut self, status: Status)
        ensures
            final(self)@ == (ItemModel { status: status, ..old(self)@ }),
    {
        self.status = status;
    }

    /// Set the item's priority.
    pub fn set_priority(&mut self, priority: Priority)
        ensures
            final(self)@ == (ItemModel { priority: priority, ..old(self)@ }),
    {
        self.priority = priority;
    }

    /// Set or clear the item's due date.
    pub fn set_due_date(&mut self, due_date: Option<u64>)
        ensures
            final(self)@ == (ItemModel { due_date: due_date, ..old(self)@ }),
    {
        self.due_date = due_date;
    }

    /// Overwrite the identifier; only the store uses this, to keep an
    /// item's identity aligned with the key it is stored under.
    pub(crate) fn set_id(&mut self, id: u128)
        ensures
            final(self)@ == (ItemModel { id: id, ..old(self)@ }),
    {
        self.id = id;
    }

    /// Set or clear the identifier of the item's parent.
    pub fn set_parent_id(&mut self, parent_id: Option<u128>)
        ensures
            final(self)@ == (ItemModel { parent_id: parent_id, ..old(self)@ }),
    {
        self.parent_id = parent_id;
    }

    /// Is the item completed?
    pub fn is_completed(&self) -> (r: bool)
        ensures
            r == (self@.status == Status::Completed),
    {
        match self.status {
            Status::Completed => true,
            _ => false,
        }
    }

    /// Mark the item completed.
    pub fn mark_completed(&mut self)
        ensures
            final(self)@ == (ItemModel { status: Status::Completed, ..old(self)@ }),
    {
        self.status = Status::Completed;
    }

    /// Is the item overdue at time `now`?
    pub fn is_overdue_at(&self, now: u64) -> (r: bool)
        ensures
            r == overdue_at(self@, now),
    {
        match self.due_date {
            Some(due) => due < now && !self.is_completed(),
            None => false,
        }
    }

    /// Is the item overdue right now? The clock is sampled at call time, so
    /// two calls may disagree as real time passes.
    pub fn is_overdue(&self) -> (r: bool)
        ensures
            self@.due_date is None ==> !r,
            self@.status == Status::Completed ==> !r,
            r ==> self@.due_date is Some && self@.status != Status::Completed,
    {
        let now = sys::now_seconds();
        self.is_overdue_at(now)
    }

    /// Set the parent and hand the item back (builder style).
    pub fn with_parent(self, parent_id: u128) -> (r: TodoItem)
        ensures
            r@ == (ItemModel { parent_id: Some(parent_id), ..self@ }),
    {
        let mut it = self;
        it.set_parent_id(Some(parent_id));
        it
    }

    /// Set the priority and hand the item back (builder style).
    pub fn with_priority(self, priority: Priority) -> (r: TodoItem)
        ensures
            r@ == (ItemModel { priority: priority, ..self@ }),
    {
        let mut it = self;
        it.set_priority(priority);
        it
    }

    /// Set the status and hand the item back (builder style).
    pub fn with_status(self, status: Status) -> (r: TodoItem)
        ensures
            r@ == (ItemModel { status: status, ..self@ }),
    {
        let mut it = self;
        it.set_status(status);
        it
    }

    /// Set the description and hand the item back (builder style).
    pub fn with_description(self, description: &str) -> (r: TodoItem)
        ensures
            r@ == (ItemModel { description: Some(description@), ..self@ }),
    {
        let mut it = self;
        it.set_description(Some(description));
        it
    }

    /// Set the due date and hand the item back (builder style).
    pub fn with_due_date(self, due_date: u64) -> (r: TodoItem)
        ensures
            r@ == (ItemModel { due_date: Some(due_date), ..self@ }),
    {
        let mut it = self;
        it.set_due_date(Some(due_date));
        it
    }
}

} // verus!
