//! The owning collection of all task items, together with a derived
//! parent-to-children index kept in lock-step with each item's `parent_id`.
//!
//! The index is an ordered list of edges `(parent key, child id)`; the
//! children of one parent key, read in edge order, form that parent's
//! bucket. Well-formedness (`wf`) states the central invariant: every live
//! item's id stands in exactly one edge, and that edge's parent key equals
//! the item's own `parent_id`.

use vstd::prelude::*;
use vstd::set_lib::lemma_len_subset;
use crate::item::ItemModel;
use crate::item::Priority;
use crate::item::Status;
use crate::item::TodoItem;
use crate::sys;

verus! {

/// One entry of the hierarchy index: a parent key (`None` for the root
/// bucket) and the id of one of its children.
pub type Edge = (Option<u128>, u128);

/// The ids that the edge list files under parent key `p`, in edge order:
/// the bucket of `p`.
pub open spec fn children_in(s: Seq<Edge>, p: Option<u128>) -> Seq<u128>
    decreases s.len(),
{
    if s.len() == 0 {
        Seq::empty()
    } else {
        let rest = children_in(s.drop_last(), p);
        if s.last().0 == p {
            rest.push(s.last().1)
        } else {
            rest
        }
    }
}

/// The edge list with every edge of child `id` dropped.
pub open spec fn edges_without(s: Seq<Edge>, id: u128) -> Seq<Edge>
    decreases s.len(),
{
    if s.len() == 0 {
        Seq::empty()
    } else {
        let rest = edges_without(s.drop_last(), id);
        if s.last().1 == id {
            rest
        } else {
            rest.push(s.last())
        }
    }
}

/// The item sequence with every item whose id lies in `r` dropped; the
/// others keep their relative order.
pub open spec fn items_outside(s: Seq<TodoItem>, r: Set<u128>) -> Seq<TodoItem>
    decreases s.len(),
{
    if s.len() == 0 {
        Seq::empty()
    } else {
        let rest = items_outside(s.drop_last(), r);
        if r.contains(s.last()@.id) {
            rest
        } else {
            rest.push(s.last())
        }
    }
}

/// The edge list with every edge whose child lies in `r` dropped; the
/// others keep their relative order.
pub open spec fn edges_outside(s: Seq<Edge>, r: Set<u128>) -> Seq<Edge>
    decreases s.len(),
{
    if s.len() == 0 {
        Seq::empty()
    } else {
        let rest = edges_outside(s.drop_last(), r);
        if r.contains(s.last().1) {
            rest
        } else {
            rest.push(s.last())
        }
    }
}

/// The id sequence with every occurrence of `x` dropped.
pub open spec fn ids_without(b: Seq<u128>, x: u128) -> Seq<u128>
    decreases b.len(),
{
    if b.len() == 0 {
        Seq::empty()
    } else {
        let rest = ids_without(b.drop_last(), x);
        if b.last() == x {
            rest
        } else {
            rest.push(b.last())
        }
    }
}

/// The edge list with every edge filed under parent key `p` dropped.
pub open spec fn edges_without_key(s: Seq<Edge>, p: Option<u128>) -> Seq<Edge>
    decreases s.len(),
{
    if s.len() == 0 {
        Seq::empty()
    } else {
        let rest = edges_without_key(s.drop_last(), p);
        if s.last().0 == p {
            rest
        } else {
            rest.push(s.last())
        }
    }
}

/// One pass over a bucket: drop `x` wherever it stood, and emit it again
/// immediately before `t`.
pub open spec fn place_before(b: Seq<u128>, x: u128, t: u128) -> Seq<u128>
    decreases b.len(),
{
    if b.len() == 0 {
        Seq::empty()
    } else {
        let rest = place_before(b.drop_first(), x, t);
        if b[0] == x {
            rest
        } else if b[0] == t {
            seq![x, b[0]] + rest
        } else {
            seq![b[0]] + rest
        }
    }
}

/// The bucket `b` with `x` re-filed immediately before `t`; when neither
/// stands in the bucket, `x` joins at the end instead (the fallback the
/// one-pass rebuild falls into when the target was never seen).
pub open spec fn reorder_before(b: Seq<u128>, x: u128, t: u128) -> Seq<u128> {
    if !b.contains(x) && !b.contains(t) {
        place_before(b, x, t).push(x)
    } else {
        place_before(b, x, t)
    }
}

/// Does the reference sequence `rs` present exactly the values `vs`, in
/// order?
pub open spec fn presents(rs: Seq<&TodoItem>, vs: Seq<TodoItem>) -> bool {
    &&& rs.len() == vs.len()
    &&& forall|k: int| 0 <= k < rs.len() ==> *(#[trigger] rs[k]) == vs[k]
}

/// The completed items of `s`, in order.
pub open spec fn completed_of(s: Seq<TodoItem>) -> Seq<TodoItem>
    decreases s.len(),
{
    if s.len() == 0 {
        Seq::empty()
    } else {
        let rest = completed_of(s.drop_last());
        if s.last()@.status == Status::Completed {
            rest.push(s.last())
        } else {
            rest
        }
    }
}

/// The not-yet-completed items of `s`, in order.
pub open spec fn incomplete_of(s: Seq<TodoItem>) -> Seq<TodoItem>
    decreases s.len(),
{
    if s.len() == 0 {
        Seq::empty()
    } else {
        let rest = incomplete_of(s.drop_last());
        if s.last()@.status != Status::Completed {
            rest.push(s.last())
        } else {
            rest
        }
    }
}

/// The items of `s` with status `st`, in order.
pub open spec fn by_status_of(s: Seq<TodoItem>, st: Status) -> Seq<TodoItem>
    decreases s.len(),
{
    if s.len() == 0 {
        Seq::empty()
    } else {
        let rest = by_status_of(s.drop_last(), st);
        if s.last()@.status == st {
            rest.push(s.last())
        } else {
            rest
        }
    }
}

/// The items of `s` with priority `p`, in order.
pub open spec fn by_priority_of(s: Seq<TodoItem>, p: Priority) -> Seq<TodoItem>
    decreases s.len(),
{
    if s.len() == 0 {
        Seq::empty()
    } else {
        let rest = by_priority_of(s.drop_last(), p);
        if s.last()@.priority == p {
            rest.push(s.last())
        } else {
            rest
        }
    }
}

/// The items of `s` overdue at time `now`, in order.
pub open spec fn overdue_of(s: Seq<TodoItem>, now: u64) -> Seq<TodoItem>
    decreases s.len(),
{
    if s.len() == 0 {
        Seq::empty()
    } else {
        let rest = overdue_of(s.drop_last(), now);
        if crate::item::overdue_at(s.last()@, now) {
            rest.push(s.last())
        } else {
            rest
        }
    }
}

/// The items of `s` that the boolean mask keeps, in order.
pub open spec fn mask_keep(s: Seq<TodoItem>, keep: Seq<bool>) -> Seq<TodoItem>
    decreases s.len(),
{
    if s.len() == 0 {
        Seq::empty()
    } else {
        let rest = mask_keep(s.drop_last(), keep.drop_last());
        if keep.len() > 0 && keep.last() {
            rest.push(s.last())
        } else {
            rest
        }
    }
}

/// Does some item of `s` carry the id `c`?
pub open spec fn seq_has_id(s: Seq<TodoItem>, c: u128) -> bool {
    exists|i: int| 0 <= i < s.len() && s[i]@.id == c
}

/// Does some edge of `s` carry `c` as its child?
pub open spec fn has_child(s: Seq<Edge>, c: u128) -> bool {
    exists|k: int| 0 <= k < s.len() && s[k].1 == c
}

/// No child id occurs on two edges.
pub open spec fn child_unique(s: Seq<Edge>) -> bool {
    forall|i: int, j: int| 0 <= i < j < s.len() ==> s[i].1 != s[j].1
}

/// Why a reparenting request was rejected.
#[derive(Debug, Clone, Copy, PartialEq, Eq, Structural)]
pub enum MoveError {
    /// The item to be moved is not in the list.
    ItemNotFound,
    /// The requested new parent is not in the list.
    ParentNotFound,
    /// The move would make the item its own ancestor (or the new parent
    /// already sits on a parent cycle, which is treated the same way).
    CycleDetected,
}

impl MoveError {
    /// Human-readable description of the error.
    pub fn message(self) -> (r: String)
        ensures
            self == MoveError::ItemNotFound ==> r@ == "item not found"@,
            self == MoveError::ParentNotFound ==> r@ == "parent item not found"@,
            self == MoveError::CycleDetected ==> r@ == "moving this item would create a cycle"@,
    {
        match self {
            MoveError::ItemNotFound => "item not found".to_owned(),
            MoveError::ParentNotFound => "parent item not found".to_owned(),
            MoveError::CycleDetected => "moving this item would create a cycle".to_owned(),
        }
    }
}

/// A list of tasks with hierarchy support: items keyed by id, plus the
/// edge list that indexes them by parent.
#[derive(Debug)]
pub struct TodoList {
    name: String,
    items: Vec<TodoItem>,
    hierarchy: Vec<Edge>,
}

impl TodoList {
    /// The list's display name.
    pub closed spec fn spec_name(self) -> Seq<char> {
        self.name@
    }

    /// The items, in insertion order.
    pub closed spec fn items_seq(self) -> Seq<TodoItem> {
        self.items@
    }

    /// The hierarchy index, as an ordered list of (parent, child) edges.
    pub closed spec fn edges(self) -> Seq<Edge> {
        self.hierarchy@
    }

    /// Is an item with this id live in the list?
    pub open spec fn contains_id(self, id: u128) -> bool {
        exists|i: int| 0 <= i < self.items_seq().len() && self.items_seq()[i]@.id == id
    }

    /// Position of the item with this id (meaningful when ids are unique).
    pub open spec fn idx_of(self, id: u128) -> int {
        choose|i: int| 0 <= i < self.items_seq().len() && self.items_seq()[i]@.id == id
    }

    /// The model of the live item with this id.
    pub open spec fn item_model(self, id: u128) -> ItemModel {
        self.items_seq()[self.idx_of(id)]@
    }

    /// The bucket of parent key `p`: its child ids in order.
    pub open spec fn children_of(self, p: Option<u128>) -> Seq<u128> {
        children_in(self.edges(), p)
    }

    /// No two items share an id.
    pub open spec fn items_unique(self) -> bool {
        forall|i: int, j: int|
            0 <= i < j < self.items_seq().len()
                ==> self.items_seq()[i]@.id != self.items_seq()[j]@.id
    }

    /// Every edge points at a live item whose `parent_id` equals the edge's
    /// parent key.
    pub open spec fn edges_sound(self) -> bool {
        forall|k: int|
            0 <= k < self.edges().len() ==> self.contains_id(#[trigger] self.edges()[k].1)
                && self.item_model(self.edges()[k].1).parent_id == self.edges()[k].0
    }

    /// Every live item's id stands on some edge.
    pub open spec fn items_indexed(self) -> bool {
        forall|i: int|
            0 <= i < self.items_seq().len()
                ==> has_child(self.edges(), #[trigger] self.items_seq()[i]@.id)
    }

    /// Every item is valid on its own.
    pub open spec fn items_wf(self) -> bool {
        forall|i: int| 0 <= i < self.items_seq().len() ==> (#[trigger] self.items_seq()[i]).wf()
    }

    /// The list's invariant. Together, the last three conjuncts say that
    /// every id in the item collection appears in exactly one bucket of the
    /// hierarchy index — exactly once — and that this bucket's key equals
    /// the item's own `parent_id`; and that the index holds nothing else.
    pub open spec fn wf(self) -> bool {
        &&& self.items_unique()
        &&& self.items_wf()
        &&& child_unique(self.edges())
        &&& self.edges_sound()
        &&& self.items_indexed()
    }

    /// Number of live items.
    pub open spec fn spec_len(self) -> nat {
        self.items_seq().len()
    }

    /// Create an empty list with the given name.
    pub fn new(name: &str) -> (r: TodoList)
        ensures
            r.spec_name() == name@,
            r.items_seq() == Seq::<TodoItem>::empty(),
            r.edges() == Seq::<Edge>::empty(),
            r.wf(),
    {
        let r = TodoList { name: name.to_owned(), items: Vec::new(), hierarchy: Vec::new() };
        proof {
            assert(r.items_seq() =~= Seq::<TodoItem>::empty());
            assert(r.edges() =~= Seq::<Edge>::empty());
        }
        r
    }

    /// The list's name.
    pub fn name(&self) -> (r: &str)
        ensures
            r@ == self.spec_name(),
    {
        self.name.as_str()
    }

    /// Rename the list.
    pub fn set_name(&mut self, name: &str)
        ensures
            final(self).spec_name() == name@,
            final(self).items_seq() == old(self).items_seq(),
            final(self).edges() == old(self).edges(),
    {
        self.name = name.to_owned();
    }

    /// Number of live items.
    pub fn len(&self) -> (r: usize)
        ensures
            r == self.spec_len(),
    {
        self.items.len()
    }

    /// Is the list empty?
    pub fn is_empty(&self) -> (r: bool)
        ensures
            r == (self.spec_len() == 0),
    {
        self.items.is_empty()
    }

    /// Position of the item with id `id` in the item vector, if it is live.
    fn find_index(&self, id: u128) -> (r: Option<usize>)
        requires
            self.items_unique(),
        ensures
            match r {
                Some(i) => {
                    &&& i < self.items_seq().len()
                    &&& self.items_seq()[i as int]@.id == id
                    &&& self.contains_id(id)
                    &&& self.idx_of(id) == i as int
                },
                None => !self.contains_id(id),
            },
    {
        let n = self.items.len();
        let mut i: usize = 0;
        while i < n
            invariant
                self.items_unique(),
                n == self.items_seq().len(),
                i <= n,
                forall|j: int| 0 <= j < i ==> self.items_seq()[j]@.id != id,
            decreases n - i,
        {
            if self.items[i].id() == id {
                proof {
                    let ci = self.idx_of(id);
                    assert(self.items_seq()[i as int]@.id == id);
                    assert(0 <= ci < self.items_seq().len() && self.items_seq()[ci]@.id == id);
                    assert(ci == i as int);
                }
                return Some(i);
            }
            i += 1;
        }
        None
    }

    /// A reference to the live item with this id, if any.
    pub fn get_item(&self, id: u128) -> (r: Option<&TodoItem>)
        requires
            self.wf(),
        ensures
            match r {
                Some(it) => {
                    &&& self.contains_id(id)
                    &&& *it == self.items_seq()[self.idx_of(id)]
                    &&& it@ == self.item_model(id)
                },
                None => !self.contains_id(id),
            },
    {
        match self.find_index(id) {
            Some(i) => Some(&self.items[i]),
            None => None,
        }
    }

    /// Mutable access to the live item with this id, if any. The borrow is
    /// short-lived: the caller edits the item and lets it go; editing the
    /// id or the parent link through it would desynchronise the index, so
    /// the invariant is only guaranteed again for edits that keep both.
    pub fn get_item_mut(&mut self, id: u128) -> (r: Option<&mut TodoItem>)
        requires
            old(self).wf(),
        ensures
            match r {
                Some(m) => {
                    &&& old(self).contains_id(id)
                    &&& *m == old(self).items_seq()[old(self).idx_of(id)]
                    &&& final(self).items_seq() == old(self).items_seq().update(
                        old(self).idx_of(id),
                        *final(m),
                    )
                    &&& final(self).edges() == old(self).edges()
                    &&& final(self).spec_name() == old(self).spec_name()
                },
                None => {
                    &&& !old(self).contains_id(id)
                    &&& *final(self) == *old(self)
                },
            },
    {
        match self.find_index(id) {
            Some(i) => Some(&mut self.items[i]),
            None => None,
        }
    }

    /// After editing an item in place without touching its id or parent
    /// link, the list invariant still holds.
    pub proof fn lemma_edit_preserves_wf(pre: TodoList, post: TodoList, id: u128, it: TodoItem)
        requires
            pre.wf(),
            pre.contains_id(id),
            it.wf(),
            it@.id == id,
            it@.parent_id == pre.item_model(id).parent_id,
            post.items_seq() == pre.items_seq().update(pre.idx_of(id), it),
            post.edges() == pre.edges(),
        ensures
            post.wf(),
    {
        let i = pre.idx_of(id);
        assert forall|a: int, b: int|
            0 <= a < b < post.items_seq().len() implies post.items_seq()[a]@.id
            != post.items_seq()[b]@.id by {
            assert(pre.items_seq()[a]@.id != pre.items_seq()[b]@.id);
        }
        assert forall|c: u128| pre.contains_id(c) implies post.contains_id(c)
            && post.item_model(c) == (if c == id { it@ } else { pre.item_model(c) }) by {
            let pi = pre.idx_of(c);
            assert(post.items_seq()[pi]@.id == c);
            let qi = post.idx_of(c);
            assert(post.items_seq()[qi]@.id == c);
            if qi != pi {
                assert(pre.items_seq()[qi]@.id == c);
            }
            assert(qi == pi);
        }
        assert forall|c: u128| post.contains_id(c) implies pre.contains_id(c) by {
            let qi = post.idx_of(c);
            assert(pre.items_seq()[qi]@.id == if qi == i { id } else { c });
        }
        assert(post.edges_sound());
        assert forall|j: int| 0 <= j < post.items_seq().len() implies has_child(
            post.edges(),
            #[trigger] post.items_seq()[j]@.id,
        ) by {
            assert(post.items_seq()[j]@.id == pre.items_seq()[j]@.id);
        }
    }

    /// Rebuild the hierarchy index with every edge of child `id` dropped.
    fn remove_edges_of(&mut self, id: u128)
        ensures
            final(self).items_seq() == old(self).items_seq(),
            final(self).spec_name() == old(self).spec_name(),
            final(self).edges() == edges_without(old(self).edges(), id),
    {
        let n = self.hierarchy.len();
        let mut out: Vec<Edge> = Vec::new();
        let mut k: usize = 0;
        while k < n
            invariant
                n == self.edges().len(),
                k <= n,
                out@ == edges_without(self.edges().take(k as int), id),
            decreases n - k,
        {
            let e = self.hierarchy[k];
            proof {
                assert(self.edges().take(k as int + 1).drop_last() =~= self.edges().take(k as int));
                assert(self.edges().take(k as int + 1).last() == self.edges()[k as int]);
            }
            if e.1 != id {
                out.push(e);
            }
            k += 1;
        }
        proof {
            assert(self.edges().take(n as int) =~= self.edges());
        }
        self.hierarchy = out;
    }

    /// Insert a caller-constructed item, filing it under its current
    /// `parent_id` key (which may point at an id that is not live: the
    /// index tolerates dangling parent keys, and queries simply never reach
    /// them). An item carrying an id that is already live replaces the old
    /// item and its index entry. The id is handed back.
    pub fn add_item(&mut self, item: TodoItem) -> (r: u128)
        requires
            old(self).wf(),
            item.wf(),
        ensures
            final(self).wf(),
            r == item@.id,
            final(self).spec_name() == old(self).spec_name(),
            old(self).contains_id(item@.id) ==> final(self).items_seq() == old(
                self,
            ).items_seq().update(old(self).idx_of(item@.id), item),
            !old(self).contains_id(item@.id) ==> final(self).items_seq() == old(
                self,
            ).items_seq().push(item),
            final(self).edges() == edges_without(old(self).edges(), item@.id).push(
                (item@.parent_id, item@.id),
            ),
            final(self).contains_id(item@.id),
            final(self).item_model(item@.id) == item@,
    {
        let ghost pre = *old(self);
        let ghost x = item;
        let id = item.id();
        let p = item.parent_id();
        self.remove_edges_of(id);
        match self.find_index(id) {
            Some(i) => {
                self.items[i] = item;
            },
            None => {
                self.items.push(item);
            },
        }
        self.hierarchy.push((p, id));
        proof {
            if pre.contains_id(id) {
                lemma_refile_update_wf(pre, *self, x);
            } else {
                lemma_refile_push_wf(pre, *self, x);
            }
        }
        id
    }

    /// Create a new item with the given title (fresh id, default fields,
    /// no parent) and insert it as a root item. Hands back the new id.
    pub fn create_item(&mut self, title: &str) -> (r: u128)
        requires
            old(self).wf(),
        ensures
            final(self).wf(),
            final(self).spec_name() == old(self).spec_name(),
            final(self).contains_id(r),
            ({
                let m = final(self).item_model(r);
                &&& m.id == r
                &&& m.title == title@
                &&& m.description is None
                &&& m.status == Status::NotStarted
                &&& m.priority == Priority::Medium
                &&& m.due_date is None
                &&& m.parent_id is None
                &&& m.metadata == Seq::<(Seq<char>, Seq<char>)>::empty()
            }),
            final(self).edges() == edges_without(old(self).edges(), r).push((None, r)),
            old(self).contains_id(r) ==> final(self).items_seq() == old(self).items_seq().update(
                old(self).idx_of(r),
                final(self).items_seq()[old(self).idx_of(r)],
            ),
            !old(self).contains_id(r) ==> final(self).items_seq() == old(self).items_seq().push(
                final(self).items_seq().last(),
            ),
    {
        let ghost pre = *old(self);
        let item = TodoItem::new(title);
        let ghost m = item@;
        let r = self.add_item(item);
        proof {
            if pre.contains_id(r) {
                assert(self.items_seq()[pre.idx_of(r)]@.id == r);
            }
            assert(m.metadata =~= Seq::<(Seq<char>, Seq<char>)>::empty());
        }
        r
    }

    /// Walking up from `b` through successive parent links, the walk
    /// reaches a top — an item with no parent, or a dangling parent
    /// reference — within `n` steps, without ever stepping onto `a`.
    pub open spec fn escapes(self, b: u128, a: u128, n: nat) -> bool
        decreases n,
    {
        if !self.contains_id(b) {
            true
        } else {
            match self.item_model(b).parent_id {
                None => true,
                Some(p) => p != a && n > 0 && self.escapes(p, a, (n - 1) as nat),
            }
        }
    }

    /// May `item_id` be re-filed under `new_parent_id` without becoming
    /// its own ancestor? The walk up from the new parent must neither meet
    /// `item_id` nor run forever: a pre-existing parent cycle above the new
    /// parent blocks the move as well (the walk fails closed).
    pub open spec fn move_allowed(self, item_id: u128, new_parent_id: Option<u128>) -> bool {
        match new_parent_id {
            None => true,
            Some(p) => p != item_id && exists|n: nat| self.escapes(p, item_id, n),
        }
    }

    /// Is `x` a strict descendant of `r`, witnessed by a chain of at most
    /// `n + 1` parent links through live items?
    pub open spec fn descends(self, x: u128, r: u128, n: nat) -> bool
        decreases n,
    {
        self.contains_id(x) && match self.item_model(x).parent_id {
            Some(p) => p == r || (n > 0 && self.descends(p, r, (n - 1) as nat)),
            None => false,
        }
    }

    /// Is `x` the root `r` itself, or one of its strict descendants?
    pub open spec fn in_subtree(self, x: u128, r: u128) -> bool {
        x == r || exists|n: nat| self.descends(x, r, n)
    }

    /// All the ids that a cascading removal of `r` takes away.
    pub open spec fn subtree_set(self, r: u128) -> Set<u128> {
        Set::new(|x: u128| self.in_subtree(x, r))
    }

    /// Does the ancestor walk from `b` fail to escape `a` — that is, does
    /// it meet `a`, or run into a parent cycle?
    fn blocks(&self, a: u128, b: u128) -> (r: bool)
        requires
            self.items_unique(),
        ensures
            r <==> !(exists|n: nat| self.escapes(b, a, n)),
    {
        let n = self.items.len();
        let mut cur = b;
        let mut fuel = n;
        let ghost mut steps: int = 0;
        loop
            invariant
                self.items_unique(),
                n == self.items_seq().len(),
                0 <= steps,
                fuel as int == n - steps,
                forall|k: nat| self.escapes(cur, a, k) ==> self.escapes(b, a, (k + steps) as nat),
                forall|k: nat|
                    self.escapes(b, a, k) ==> k >= steps && self.escapes(
                        cur,
                        a,
                        (k - steps) as nat,
                    ),
            decreases fuel,
        {
            match self.find_index(cur) {
                None => {
                    proof {
                        assert(self.escapes(cur, a, 0));
                        assert(self.escapes(b, a, (0 + steps) as nat));
                    }
                    return false;
                },
                Some(i) => {
                    match self.items[i].parent_id() {
                        None => {
                            proof {
                                assert(self.item_model(cur).parent_id is None);
                                assert(self.escapes(cur, a, 0));
                                assert(self.escapes(b, a, (0 + steps) as nat));
                            }
                            return false;
                        },
                        Some(p) => {
                            proof {
                                assert(self.item_model(cur).parent_id == Some(p));
                            }
                            if p == a {
                                proof {
                                    assert forall|k: nat| !self.escapes(cur, a, k) by {}
                                    assert forall|k: nat| !self.escapes(b, a, k) by {
                                        if self.escapes(b, a, k) {
                                            assert(self.escapes(cur, a, (k - steps) as nat));
                                        }
                                    }
                                }
                                return true;
                            }
                            if fuel == 0 {
                                proof {
                                    if exists|k: nat| self.escapes(b, a, k) {
                                        let k = choose|k: nat| self.escapes(b, a, k);
                                        lemma_escape_bound(*self, b, a, k);
                                        assert(self.escapes(b, a, n as nat));
                                        assert(self.escapes(cur, a, (n as nat - steps) as nat));
                                        assert(false);
                                    }
                                }
                                return true;
                            }
                            proof {
                                assert forall|k: nat| self.escapes(p, a, k) implies self.escapes(
                                    b,
                                    a,
                                    (k + steps + 1) as nat,
                                ) by {
                                    assert(self.escapes(cur, a, (k + 1) as nat));
                                }
                                assert forall|k: nat| self.escapes(b, a, k) implies k >= steps + 1
                                    && self.escapes(p, a, (k - steps - 1) as nat) by {
                                    assert(k >= steps && self.escapes(cur, a, (k - steps) as nat));
                                }
                            }
                            cur = p;
                            fuel -= 1;
                            proof {
                                steps = steps + 1;
                            }
                        },
                    }
                },
            }
        }
    }

    /// Re-file the item `item_id` under a new parent (or make it a root
    /// item). Fails — and leaves the list untouched — when the item or the
    /// named parent is missing, or when the move would create a cycle; the
    /// `ensures` pins each error to its exact cause. On success the item's
    /// `parent_id`, and its index entry, both point at the new parent, and
    /// the item joins the end of the new parent's bucket.
    pub fn move_item(&mut self, item_id: u128, new_parent_id: Option<u128>) -> (r: Result<
        (),
        MoveError,
    >)
        requires
            old(self).wf(),
        ensures
            final(self).spec_name() == old(self).spec_name(),
            r is Ok <==> old(self).contains_id(item_id) && (new_parent_id is Some ==> old(
                self,
            ).contains_id(new_parent_id.unwrap())) && old(self).move_allowed(
                item_id,
                new_parent_id,
            ),
            match r {
                Ok(_) => {
                    &&& final(self).wf()
                    &&& final(self).items_seq() == old(self).items_seq().update(
                        old(self).idx_of(item_id),
                        final(self).items_seq()[old(self).idx_of(item_id)],
                    )
                    &&& final(self).contains_id(item_id)
                    &&& final(self).item_model(item_id) == (ItemModel {
                        parent_id: new_parent_id,
                        ..old(self).item_model(item_id)
                    })
                    &&& forall|c: u128|
                        c != item_id ==> (final(self).contains_id(c) <==> old(self).contains_id(
                            c,
                        ))
                    &&& forall|c: u128|
                        c != item_id && old(self).contains_id(c) ==> final(self).item_model(c)
                            == old(self).item_model(c)
                    &&& final(self).edges() == edges_without(old(self).edges(), item_id).push(
                        (new_parent_id, item_id),
                    )
                },
                Err(e) => {
                    &&& *final(self) == *old(self)
                    &&& (e == MoveError::ItemNotFound <==> !old(self).contains_id(item_id))
                    &&& (e == MoveError::ParentNotFound <==> old(self).contains_id(item_id)
                        && new_parent_id is Some && !old(self).contains_id(new_parent_id.unwrap()))
                    &&& (e == MoveError::CycleDetected <==> old(self).contains_id(item_id) && (
                    new_parent_id is Some ==> old(self).contains_id(new_parent_id.unwrap()))
                        && !old(self).move_allowed(item_id, new_parent_id))
                },
            },
    {
        let ghost pre = *old(self);
        let idx = match self.find_index(item_id) {
            Some(i) => i,
            None => {
                return Err(MoveError::ItemNotFound);
            },
        };
        if let Some(p) = new_parent_id {
            match self.find_index(p) {
                Some(_) => {},
                None => {
                    return Err(MoveError::ParentNotFound);
                },
            }
            if p == item_id {
                return Err(MoveError::CycleDetected);
            }
            if self.blocks(item_id, p) {
                return Err(MoveError::CycleDetected);
            }
        }
        let mut it = self.items.remove(idx);
        it.set_parent_id(new_parent_id);
        let ghost x = it;
        self.items.insert(idx, it);
        proof {
            assert(self.items_seq() =~= pre.items_seq().update(idx as int, x));
        }
        self.remove_edges_of(item_id);
        self.hierarchy.push((new_parent_id, item_id));
        proof {
            lemma_refile_update_wf(pre, *self, x);
        }
        Ok(())
    }

    /// Remove the item `id` and, before it, every one of its descendants
    /// (the walk over the index uses the collected set itself as a visited
    /// guard, so even a corrupted cyclic hierarchy could not make it run
    /// forever). Hands back the removed item, or `None` — and leaves the
    /// list untouched — when `id` is not live. Afterwards no id of the
    /// subtree is live, indexed, or reachable, and every other item is
    /// exactly as it was.
    pub fn remove_item(&mut self, id: u128) -> (r: Option<TodoItem>)
        requires
            old(self).wf(),
        ensures
            final(self).spec_name() == old(self).spec_name(),
            r is Some <==> old(self).contains_id(id),
            match r {
                Some(it) => {
                    &&& it == old(self).items_seq()[old(self).idx_of(id)]
                    &&& final(self).wf()
                    &&& final(self).items_seq() == items_outside(
                        old(self).items_seq(),
                        old(self).subtree_set(id),
                    )
                    &&& final(self).edges() == edges_outside(
                        old(self).edges(),
                        old(self).subtree_set(id),
                    )
                    &&& forall|c: u128|
                        old(self).in_subtree(c, id) ==> !final(self).contains_id(c)
                    &&& forall|c: u128|
                        old(self).contains_id(c) && !old(self).in_subtree(c, id)
                            ==> final(self).contains_id(c) && final(self).item_model(c) == old(
                            self,
                        ).item_model(c)
                },
                None => *final(self) == *old(self),
            },
    {
        let ghost pre = *old(self);
        match self.find_index(id) {
            Some(_) => {},
            None => {
                return None;
            },
        }
        // collect the subtree ids breadth-first
        let mut sub: Vec<u128> = Vec::new();
        let mut queue: Vec<u128> = Vec::new();
        sub.push(id);
        queue.push(id);
        proof {
            assert(sub@[0] == id);
            assert(queue@[0] == id);
        }
        while queue.len() > 0
            invariant
                *self == pre,
                pre.wf(),
                pre.contains_id(id),
                sub@.no_duplicates(),
                sub@.contains(id),
                forall|k: int|
                    0 <= k < sub@.len() ==> pre.contains_id(#[trigger] sub@[k]) && pre.in_subtree(
                        sub@[k],
                        id,
                    ),
                forall|k: int| 0 <= k < queue@.len() ==> sub@.contains(#[trigger] queue@[k]),
                forall|v: u128, c: u128|
                    sub@.contains(v) && !queue@.contains(v) && pre.contains_id(c)
                        && pre.item_model(c).parent_id == Some(v) ==> sub@.contains(c),
                sub@.len() <= pre.items_seq().len(),
            decreases pre.items_seq().len() - sub@.len(), queue@.len(),
        {
            let ghost oldsub = sub@;
            let ghost oldq = queue@;
            let ql = queue.len();
            let v = queue.remove(ql - 1);
            proof {
                assert(queue@ =~= oldq.drop_last());
                assert(sub@.contains(v));
                assert forall|v2: u128| !queue@.contains(v2) && v2 != v implies !oldq.contains(
                    v2,
                ) by {
                    if oldq.contains(v2) {
                        let k = choose|k: int| 0 <= k < oldq.len() && oldq[k] == v2;
                        if k < oldq.len() - 1 {
                            assert(queue@[k] == v2);
                        }
                    }
                }
            }
            let kids = self.bucket_ids(Some(v));
            let nk = kids.len();
            let mut ki: usize = 0;
            while ki < nk
                invariant
                    *self == pre,
                    pre.wf(),
                    pre.contains_id(id),
                    nk == kids@.len(),
                    kids@ == children_in(pre.edges(), Some(v)),
                    sub@.contains(v),
                    ki <= nk,
                    sub@.no_duplicates(),
                    sub@.contains(id),
                    forall|k: int|
                        0 <= k < sub@.len() ==> pre.contains_id(#[trigger] sub@[k])
                            && pre.in_subtree(sub@[k], id),
                    forall|k: int| 0 <= k < queue@.len() ==> sub@.contains(#[trigger] queue@[k]),
                    forall|v2: u128, c: u128|
                        sub@.contains(v2) && !queue@.contains(v2) && v2 != v && pre.contains_id(c)
                            && pre.item_model(c).parent_id == Some(v2) ==> sub@.contains(c),
                    forall|j: int| 0 <= j < ki ==> sub@.contains(#[trigger] kids@[j]),
                    sub@.len() <= pre.items_seq().len(),
                    sub@.len() >= oldsub.len(),
                    queue@.len() == oldq.len() - 1 + (sub@.len() - oldsub.len()),
                decreases nk - ki,
            {
                let c = kids[ki];
                proof {
                    lemma_children_in_edge(pre.edges(), Some(v), ki as int);
                    let e = choose|e: int|
                        0 <= e < pre.edges().len() && pre.edges()[e] == (Some(v), c);
                    assert(pre.contains_id(pre.edges()[e].1));
                    assert(pre.item_model(c).parent_id == Some(v));
                    if v == id {
                        assert(pre.descends(c, id, 0));
                    } else {
                        let vi = choose|k: int| 0 <= k < sub@.len() && sub@[k] == v;
                        assert(pre.in_subtree(sub@[vi], id));
                        let n = choose|n: nat| pre.descends(v, id, n);
                        assert(pre.descends(c, id, n + 1));
                    }
                    assert(pre.in_subtree(c, id));
                }
                if !vec_contains_id(&sub, c) {
                    let ghost s0 = sub@;
                    let ghost q0 = queue@;
                    sub.push(c);
                    queue.push(c);
                    proof {
                        assert(sub@ == s0.push(c));
                        assert(queue@ == q0.push(c));
                        assert(sub@[s0.len() as int] == c);
                        assert forall|x: u128| s0.contains(x) implies sub@.contains(x) by {
                            let k = choose|k: int| 0 <= k < s0.len() && s0[k] == x;
                            assert(sub@[k] == x);
                        }
                        assert forall|x: u128| q0.contains(x) implies queue@.contains(x) by {
                            let k = choose|k: int| 0 <= k < q0.len() && q0[k] == x;
                            assert(queue@[k] == x);
                        }
                        assert(queue@[q0.len() as int] == c);
                        assert forall|x: u128| sub@.contains(x) implies s0.contains(x) || x
                            == c by {
                            let k = choose|k: int| 0 <= k < sub@.len() && sub@[k] == x;
                            if k < s0.len() {
                                assert(s0[k] == x);
                            }
                        }
                        assert forall|x: u128| queue@.contains(x) implies q0.contains(x) || x
                            == c by {
                            let k = choose|k: int| 0 <= k < queue@.len() && queue@[k] == x;
                            if k < q0.len() {
                                assert(q0[k] == x);
                            }
                        }
                        assert forall|i: int, j: int|
                            0 <= i < sub@.len() && 0 <= j < sub@.len() && i != j implies sub@[i]
                            != sub@[j] by {
                            if j == s0.len() && i < s0.len() {
                                if sub@[i] == c {
                                    assert(s0[i] == c);
                                    assert(s0.contains(c));
                                }
                            } else if i == s0.len() && j < s0.len() {
                                if sub@[j] == c {
                                    assert(s0[j] == c);
                                    assert(s0.contains(c));
                                }
                            }
                        }
                        lemma_distinct_live_bound(pre, sub@);
                        assert forall|v2: u128, c2: u128|
                            sub@.contains(v2) && !queue@.contains(v2) && v2 != v
                                && pre.contains_id(c2) && pre.item_model(c2).parent_id == Some(
                                v2,
                            ) implies sub@.contains(c2) by {
                            assert(queue@.contains(c));
                            assert(s0.contains(v2) || v2 == c);
                            assert(v2 != c);
                            assert(!q0.contains(v2));
                            assert(s0.contains(c2));
                        }
                    }
                }
                ki += 1;
            }
            proof {
                assert forall|c: u128|
                    pre.contains_id(c) && pre.item_model(c).parent_id == Some(v)
                        implies sub@.contains(c) by {
                    let i = pre.idx_of(c);
                    assert(pre.items_seq()[i]@.id == c);
                    assert(has_child(pre.edges(), c));
                    let e = choose|e: int| 0 <= e < pre.edges().len() && pre.edges()[e].1 == c;
                    assert(pre.contains_id(pre.edges()[e].1));
                    assert(pre.edges()[e].0 == Some(v));
                    lemma_children_in_complete(pre.edges(), e);
                    assert(children_in(pre.edges(), Some(v)).contains(c));
                    let j = choose|j: int| 0 <= j < kids@.len() && kids@[j] == c;
                    assert(sub@.contains(kids@[j]));
                }
            }
        }
        // the collected vector is exactly the subtree
        let ghost rset = pre.subtree_set(id);
        proof {
            assert forall|c: u128| pre.in_subtree(c, id) implies sub@.contains(c) by {
                if c != id {
                    let n = choose|n: nat| pre.descends(c, id, n);
                    lemma_closed_covers(pre, sub@, id, c, n);
                }
            }
            assert(forall|c: u128| rset.contains(c) <==> sub@.contains(c));
        }
        // rebuild the item vector, catching the removed root on the way
        let n = self.items.len();
        let ghost pidx = pre.idx_of(id);
        let mut kept: Vec<TodoItem> = Vec::new();
        let mut removed: Option<TodoItem> = None;
        let mut i: usize = 0;
        while i < n
            invariant
                pre.wf(),
                pre.contains_id(id),
                n == pre.items_seq().len(),
                i <= n,
                self.items@ == pre.items_seq().skip(i as int),
                self.edges() == pre.edges(),
                self.spec_name() == pre.spec_name(),
                kept@ == items_outside(pre.items_seq().take(i as int), rset),
                pidx == pre.idx_of(id),
                0 <= pidx < n,
                pre.items_seq()[pidx]@.id == id,
                rset == pre.subtree_set(id),
                rset.contains(id),
                forall|c: u128| rset.contains(c) <==> sub@.contains(c),
                removed == (if pidx < i {
                    Some(pre.items_seq()[pidx])
                } else {
                    None::<TodoItem>
                }),
            decreases n - i,
        {
            let it = self.items.remove(0);
            proof {
                assert(it == pre.items_seq()[i as int]);
                assert(pre.items_seq().skip(i as int).remove(0) =~= pre.items_seq().skip(
                    i as int + 1,
                ));
                assert(pre.items_seq().take(i as int + 1).drop_last() =~= pre.items_seq().take(
                    i as int,
                ));
                assert(pre.items_seq().take(i as int + 1).last() == pre.items_seq()[i as int]);
            }
            let iid = it.id();
            if vec_contains_id(&sub, iid) {
                if iid == id {
                    proof {
                        assert(i as int == pidx);
                    }
                    removed = Some(it);
                } else {
                    proof {
                        assert(i as int != pidx);
                    }
                }
            } else {
                kept.push(it);
            }
            i += 1;
        }
        proof {
            assert(pre.items_seq().take(n as int) =~= pre.items_seq());
        }
        self.items = kept;
        // rebuild the edge list without the subtree's children
        let m = self.hierarchy.len();
        let mut ekept: Vec<Edge> = Vec::new();
        let mut j: usize = 0;
        while j < m
            invariant
                m == pre.edges().len(),
                j <= m,
                self.edges() == pre.edges(),
                self.items@ == items_outside(pre.items_seq(), rset),
                self.spec_name() == pre.spec_name(),
                ekept@ == edges_outside(pre.edges().take(j as int), rset),
                forall|c: u128| rset.contains(c) <==> sub@.contains(c),
            decreases m - j,
        {
            let e = self.hierarchy[j];
            proof {
                assert(pre.edges().take(j as int + 1).drop_last() =~= pre.edges().take(j as int));
                assert(pre.edges().take(j as int + 1).last() == pre.edges()[j as int]);
            }
            if !vec_contains_id(&sub, e.1) {
                ekept.push(e);
            }
            j += 1;
        }
        proof {
            assert(pre.edges().take(m as int) =~= pre.edges());
        }
        self.hierarchy = ekept;
        proof {
            lemma_remove_outside_wf(pre, *self, rset);
        }
        removed
    }

    /// Re-order `item_id` to sit immediately before `target_id` in the
    /// bucket of `target_id`'s parent. When the two currently live under
    /// different parents, the item is first re-filed under the target's
    /// parent — subject to the same admission rules as `move_item`, whose
    /// errors pass through. A request naming one id twice is answered as a
    /// completed no-op rather than corrupting the bucket. The whole bucket
    /// is re-derived in one pass; if the target were somehow absent from
    /// it, the item would join at the end (the fallback in
    /// `reorder_before`).
    pub fn move_item_before(&mut self, item_id: u128, target_id: u128) -> (r: Result<
        (),
        MoveError,
    >)
        requires
            old(self).wf(),
        ensures
            final(self).spec_name() == old(self).spec_name(),
            r is Ok <==> (old(self).contains_id(item_id) && old(self).contains_id(target_id) && (
            item_id == target_id || old(self).item_model(item_id).parent_id == old(
                self,
            ).item_model(target_id).parent_id || ({
                let tp = old(self).item_model(target_id).parent_id;
                &&& (tp is Some ==> old(self).contains_id(tp.unwrap()))
                &&& old(self).move_allowed(item_id, tp)
            }))),
            match r {
                Ok(_) => ({
                    let tp = old(self).item_model(target_id).parent_id;
                    let ip = old(self).item_model(item_id).parent_id;
                    &&& final(self).wf()
                    &&& (item_id == target_id ==> *final(self) == *old(self))
                    &&& (item_id != target_id && ip == tp ==> {
                        &&& final(self).items_seq() == old(self).items_seq()
                        &&& final(self).children_of(tp) == reorder_before(
                            old(self).children_of(tp),
                            item_id,
                            target_id,
                        )
                        &&& forall|q: Option<u128>|
                            q != tp ==> final(self).children_of(q) == old(self).children_of(q)
                    })
                    &&& (item_id != target_id && ip != tp ==> {
                        &&& final(self).items_seq() == old(self).items_seq().update(
                            old(self).idx_of(item_id),
                            final(self).items_seq()[old(self).idx_of(item_id)],
                        )
                        &&& final(self).item_model(item_id) == (ItemModel {
                            parent_id: tp,
                            ..old(self).item_model(item_id)
                        })
                        &&& final(self).children_of(tp) == reorder_before(
                            ids_without(old(self).children_of(tp), item_id).push(item_id),
                            item_id,
                            target_id,
                        )
                        &&& forall|q: Option<u128>|
                            q != tp ==> final(self).children_of(q) == ids_without(
                                old(self).children_of(q),
                                item_id,
                            )
                    })
                }),
                Err(e) => ({
                    let tp = old(self).item_model(target_id).parent_id;
                    let ip = old(self).item_model(item_id).parent_id;
                    &&& *final(self) == *old(self)
                    &&& (e == MoveError::ItemNotFound <==> (!old(self).contains_id(item_id)
                        || !old(self).contains_id(target_id)))
                    &&& (e == MoveError::ParentNotFound <==> (old(self).contains_id(item_id)
                        && old(self).contains_id(target_id) && item_id != target_id && ip != tp
                        && tp is Some && !old(self).contains_id(tp.unwrap())))
                    &&& (e == MoveError::CycleDetected <==> (old(self).contains_id(item_id)
                        && old(self).contains_id(target_id) && item_id != target_id && ip != tp
                        && (tp is Some ==> old(self).contains_id(tp.unwrap())) && !old(
                        self,
                    ).move_allowed(item_id, tp)))
                }),
            },
    {
        let ghost pre = *old(self);
        let iidx = match self.find_index(item_id) {
            Some(i) => i,
            None => {
                return Err(MoveError::ItemNotFound);
            },
        };
        let tidx = match self.find_index(target_id) {
            Some(i) => i,
            None => {
                return Err(MoveError::ItemNotFound);
            },
        };
        if item_id == target_id {
            return Ok(());
        }
        let ip = self.items[iidx].parent_id();
        let tp = self.items[tidx].parent_id();
        proof {
            assert(ip == pre.item_model(item_id).parent_id);
            assert(tp == pre.item_model(target_id).parent_id);
        }
        if !opt_id_eq(ip, tp) {
            match self.move_item(item_id, tp) {
                Ok(_) => {},
                Err(e) => {
                    return Err(e);
                },
            }
        }
        let ghost mid = *self;
        proof {
            assert(mid.wf());
            assert(mid.contains_id(item_id) && mid.item_model(item_id).parent_id == tp);
            assert(mid.contains_id(target_id) && mid.item_model(target_id).parent_id == tp) by {
                if ip != tp {
                    assert(mid.item_model(target_id) == pre.item_model(target_id));
                }
            }
        }
        // one pass over the bucket: skip the item, emit it again right
        // before the target
        let b1 = self.bucket_ids(tp);
        let nb = b1.len();
        let mut order: Vec<u128> = Vec::new();
        proof {
            assert(b1@.skip(0) =~= b1@);
        }
        let mut k: usize = 0;
        while k < nb
            invariant
                *self == mid,
                nb == b1@.len(),
                k <= nb,
                item_id != target_id,
                b1@ == children_in(mid.edges(), tp),
                place_before(b1@, item_id, target_id) == order@ + place_before(
                    b1@.skip(k as int),
                    item_id,
                    target_id,
                ),
            decreases nb - k,
        {
            let ghost order0 = order@;
            let ghost rest = b1@.skip(k as int);
            let c = b1[k];
            proof {
                assert(rest[0] == c);
                assert(rest.drop_first() =~= b1@.skip(k as int + 1));
            }
            if c == item_id {
                proof {
                    assert(place_before(rest, item_id, target_id) == place_before(
                        b1@.skip(k as int + 1),
                        item_id,
                        target_id,
                    ));
                }
            } else if c == target_id {
                order.push(item_id);
                order.push(c);
                proof {
                    let tail = place_before(b1@.skip(k as int + 1), item_id, target_id);
                    assert(place_before(rest, item_id, target_id) == seq![item_id, c] + tail);
                    assert(order@ =~= order0 + seq![item_id, c]);
                    assert(order0 + (seq![item_id, c] + tail) =~= (order0 + seq![item_id, c])
                        + tail);
                }
            } else {
                order.push(c);
                proof {
                    let tail = place_before(b1@.skip(k as int + 1), item_id, target_id);
                    assert(place_before(rest, item_id, target_id) == seq![c] + tail);
                    assert(order@ =~= order0 + seq![c]);
                    assert(order0 + (seq![c] + tail) =~= (order0 + seq![c]) + tail);
                }
            }
            k += 1;
        }
        proof {
            assert(b1@.skip(nb as int) =~= Seq::<u128>::empty());
            assert(order@ + place_before(Seq::<u128>::empty(), item_id, target_id) =~= order@);
            assert(order@ == place_before(b1@, item_id, target_id));
            lemma_place_before_props(b1@, item_id, target_id);
        }
        // the fallback of the one-pass rebuild: a target that was never
        // seen leaves the item to be appended at the end
        let included = vec_contains_id(&b1, item_id);
        if !included && !vec_contains_id(&order, item_id) {
            order.push(item_id);
        }
        proof {
            assert(order@ == reorder_before(b1@, item_id, target_id));
            // under the invariant neither fallback branch loses the item:
            // the bucket holds both the item and the target
            assert(b1@.contains(item_id)) by {
                let i = mid.idx_of(item_id);
                assert(mid.items_seq()[i]@.id == item_id);
                assert(has_child(mid.edges(), item_id));
                let e = choose|e: int|
                    0 <= e < mid.edges().len() && mid.edges()[e].1 == item_id;
                assert(mid.edges()[e].0 == tp);
                lemma_children_in_complete(mid.edges(), e);
            }
            assert(b1@.contains(target_id)) by {
                let i = mid.idx_of(target_id);
                assert(mid.items_seq()[i]@.id == target_id);
                assert(has_child(mid.edges(), target_id));
                let e = choose|e: int|
                    0 <= e < mid.edges().len() && mid.edges()[e].1 == target_id;
                assert(mid.edges()[e].0 == tp);
                lemma_children_in_complete(mid.edges(), e);
            }
            lemma_children_in_nodup(mid.edges(), tp);
            assert(order@.no_duplicates());
            assert forall|c: u128| order@.contains(c) implies children_in(
                mid.edges(),
                tp,
            ).contains(c) by {
                if c != item_id {
                    assert(b1@.contains(c));
                }
            }
            assert forall|c: u128| children_in(mid.edges(), tp).contains(c)
                implies order@.contains(c) by {
                if c != item_id {
                    assert(place_before(b1@, item_id, target_id).contains(c));
                }
            }
        }
        // rebuild the edge list: every other bucket's edges first, then
        // the re-ordered bucket
        let m = self.hierarchy.len();
        let mut ekept: Vec<Edge> = Vec::new();
        let mut j: usize = 0;
        while j < m
            invariant
                *self == mid,
                m == mid.edges().len(),
                j <= m,
                ekept@ == edges_without_key(mid.edges().take(j as int), tp),
            decreases m - j,
        {
            let e = self.hierarchy[j];
            proof {
                assert(mid.edges().take(j as int + 1).drop_last() =~= mid.edges().take(j as int));
                assert(mid.edges().take(j as int + 1).last() == mid.edges()[j as int]);
            }
            if !opt_id_eq(e.0, tp) {
                ekept.push(e);
            }
            j += 1;
        }
        proof {
            assert(mid.edges().take(m as int) =~= mid.edges());
        }
        let no = order.len();
        let mut w: usize = 0;
        while w < no
            invariant
                *self == mid,
                no == order@.len(),
                w <= no,
                ekept@ == edges_without_key(mid.edges(), tp) + bucket_edges(
                    tp,
                    order@.take(w as int),
                ),
            decreases no - w,
        {
            let c = order[w];
            ekept.push((tp, c));
            proof {
                assert(order@.take(w as int + 1).drop_last() =~= order@.take(w as int));
                assert(order@.take(w as int + 1).last() == order@[w as int]);
                assert(ekept@ =~= edges_without_key(mid.edges(), tp) + bucket_edges(
                    tp,
                    order@.take(w as int + 1),
                ));
            }
            w += 1;
        }
        proof {
            assert(order@.take(no as int) =~= order@);
        }
        self.hierarchy = ekept;
        proof {
            lemma_reorder_wf(mid, *self, tp, order@);
            if ip != tp {
                assert forall|q: Option<u128>| true implies children_in(mid.edges(), q) == (
                if q == tp {
                    ids_without(children_in(pre.edges(), q), item_id).push(item_id)
                } else {
                    ids_without(children_in(pre.edges(), q), item_id)
                }) by {
                    lemma_children_in_without(pre.edges(), item_id, q);
                    lemma_children_in_push(
                        edges_without(pre.edges(), item_id),
                        (tp, item_id),
                        q,
                    );
                }
            }
        }
        Ok(())
    }

    /// Pre-order traversal of one node: the node itself, then its whole
    /// bucket, one level deeper. The fuel only serves as a recursion
    /// measure: one unit is spent per level, and since no chain of live
    /// parent links from a root can be longer than the item count, the
    /// fuel `spec_hierarchy` supplies is never exhausted.
    pub open spec fn preorder_node(self, id: u128, depth: nat, fuel: nat) -> Seq<(u128, nat)>
        decreases fuel, 0int,
    {
        if fuel == 0 {
            Seq::empty()
        } else if !self.contains_id(id) {
            Seq::empty()
        } else {
            seq![(id, depth)] + self.preorder_list(
                self.children_of(Some(id)),
                depth + 1,
                (fuel - 1) as nat,
            )
        }
    }

    /// Pre-order traversal of a list of siblings, left to right.
    pub open spec fn preorder_list(self, ids: Seq<u128>, depth: nat, fuel: nat) -> Seq<
        (u128, nat),
    >
        decreases fuel, ids.len(),
    {
        if ids.len() == 0 {
            Seq::empty()
        } else {
            self.preorder_node(ids[0], depth, fuel) + self.preorder_list(
                ids.drop_first(),
                depth,
                fuel,
            )
        }
    }

    /// The depth-annotated pre-order traversal of the whole list: root
    /// items at depth 0, each followed by its subtree, siblings in bucket
    /// order.
    pub open spec fn spec_hierarchy(self) -> Seq<(u128, nat)> {
        self.preorder_list(self.children_of(None), 0, self.items_seq().len())
    }

    /// Does the reference-and-depth sequence `s` present exactly the
    /// traversal `po`: the items with those ids, at those depths, in that
    /// order?
    pub open spec fn renders(self, s: Seq<(&TodoItem, usize)>, po: Seq<(u128, nat)>) -> bool {
        &&& s.len() == po.len()
        &&& forall|k: int|
            0 <= k < s.len() ==> self.contains_id((#[trigger] po[k]).0) && *s[k].0
                == self.items_seq()[self.idx_of(po[k].0)] && s[k].1 as nat == po[k].1
    }

    /// Depth-annotated pre-order traversal: every root item at depth 0,
    /// each immediately followed by its descendants, children one level
    /// deeper, siblings in bucket order. Items never reached from a root
    /// — ones filed under a dangling parent, and anything below them — do
    /// not appear.
    pub fn hierarchical_view(&self) -> (r: Vec<(&TodoItem, usize)>)
        requires
            self.wf(),
        ensures
            self.renders(r@, self.spec_hierarchy()),
    {
        let roots = self.root_item_ids();
        let fuel = self.items.len();
        self.preorder_items(&roots, 0, fuel)
    }

    /// Pre-order collection of the subtrees of all ids in `ids`.
    fn preorder_items<'a>(&'a self, ids: &Vec<u128>, depth: usize, fuel: usize) -> (r: Vec<
        (&'a TodoItem, usize),
    >)
        requires
            self.wf(),
            depth as int + fuel as int <= usize::MAX as int,
        ensures
            self.renders(r@, self.preorder_list(ids@, depth as nat, fuel as nat)),
        decreases fuel,
    {
        let mut out: Vec<(&'a TodoItem, usize)> = Vec::new();
        if fuel == 0 {
            proof {
                lemma_preorder_list_no_fuel(*self, ids@, depth as nat);
            }
            return out;
        }
        let n = ids.len();
        let mut k: usize = 0;
        proof {
            assert(ids@.take(0) =~= Seq::<u128>::empty());
        }
        while k < n
            invariant
                self.wf(),
                depth as int + fuel as int <= usize::MAX as int,
                fuel >= 1,
                n == ids@.len(),
                k <= n,
                self.renders(out@, self.preorder_list(ids@.take(k as int), depth as nat, fuel as nat)),
            decreases n - k,
        {
            let ghost po0 = self.preorder_list(ids@.take(k as int), depth as nat, fuel as nat);
            let c = ids[k];
            proof {
                assert(ids@.take(k as int + 1) =~= ids@.take(k as int).push(c));
                lemma_preorder_list_push(*self, ids@.take(k as int), c, depth as nat, fuel as nat);
            }
            match self.find_index(c) {
                Some(i) => {
                    let kids = self.child_ids(c);
                    let mut sub = self.preorder_items(&kids, depth + 1, fuel - 1);
                    let ghost subpo = self.preorder_list(
                        kids@,
                        depth as nat + 1,
                        (fuel - 1) as nat,
                    );
                    let ghost out0 = out@;
                    let ghost subv = sub@;
                    out.push((&self.items[i], depth));
                    let ghost entry_s = seq![out@.last()];
                    out.append(&mut sub);
                    proof {
                        let entry = seq![(c, depth as nat)];
                        assert(self.preorder_node(c, depth as nat, fuel as nat) == entry + subpo);
                        assert(self.renders(entry_s, entry)) by {
                            assert(entry_s[0].1 == depth);
                        }
                        lemma_renders_concat(*self, out0, po0, entry_s, entry);
                        lemma_renders_concat(*self, out0 + entry_s, po0 + entry, subv, subpo);
                        assert(out@ =~= (out0 + entry_s) + subv);
                        assert(self.preorder_list(
                            ids@.take(k as int + 1),
                            depth as nat,
                            fuel as nat,
                        ) =~= (po0 + entry) + subpo);
                    }
                },
                None => {
                    proof {
                        assert(self.preorder_node(c, depth as nat, fuel as nat)
                            =~= Seq::<(u128, nat)>::empty());
                        assert(self.preorder_list(
                            ids@.take(k as int + 1),
                            depth as nat,
                            fuel as nat,
                        ) =~= po0);
                    }
                },
            }
            k += 1;
        }
        proof {
            assert(ids@.take(n as int) =~= ids@);
        }
        out
    }

    /// References to all items, in insertion order.
    pub fn all_items(&self) -> (r: Vec<&TodoItem>)
        ensures
            presents(r@, self.items_seq()),
    {
        let n = self.items.len();
        let mut out: Vec<&TodoItem> = Vec::new();
        let mut i: usize = 0;
        while i < n
            invariant
                n == self.items_seq().len(),
                i <= n,
                out@.len() == i,
                forall|k: int| 0 <= k < i ==> *(#[trigger] out@[k]) == self.items_seq()[k],
            decreases n - i,
        {
            out.push(&self.items[i]);
            i += 1;
        }
        out
    }

    /// The items whose predicate call came back `true`, in insertion
    /// order. What the predicate decides is whatever its own contract
    /// says: the mask ties each item's call to its result.
    pub fn filter_items<F: Fn(&TodoItem) -> bool>(&self, filter_fn: F) -> (r: Vec<&TodoItem>)
        requires
            forall|i: int|
                0 <= i < self.items_seq().len() ==> filter_fn.requires(
                    (&self.items_seq()[i],),
                ),
        ensures
            exists|keep: Seq<bool>|
                {
                    &&& keep.len() == self.items_seq().len()
                    &&& (forall|i: int|
                        0 <= i < keep.len() ==> filter_fn.ensures(
                            (&self.items_seq()[i],),
                            keep[i],
                        ))
                    &&& presents(r@, mask_keep(self.items_seq(), keep))
                },
    {
        let n = self.items.len();
        let mut out: Vec<&TodoItem> = Vec::new();
        let ghost mut keep: Seq<bool> = Seq::empty();
        proof {
            assert(self.items_seq().take(0) =~= Seq::<TodoItem>::empty());
        }
        let mut i: usize = 0;
        while i < n
            invariant
                n == self.items_seq().len(),
                i <= n,
                keep.len() == i as int,
                forall|i2: int|
                    0 <= i2 < self.items_seq().len() ==> filter_fn.requires(
                        (&self.items_seq()[i2],),
                    ),
                forall|j: int|
                    0 <= j < i ==> filter_fn.ensures((&self.items_seq()[j],), #[trigger] keep[j]),
                presents(out@, mask_keep(self.items_seq().take(i as int), keep)),
            decreases n - i,
        {
            let b = filter_fn(&self.items[i]);
            let ghost keep0 = keep;
            proof {
                keep = keep0.push(b);
                assert(self.items_seq().take(i as int + 1).drop_last() =~= self.items_seq().take(
                    i as int,
                ));
                assert(keep.drop_last() =~= keep0);
                assert(keep.last() == b);
            }
            if b {
                out.push(&self.items[i]);
            }
            i += 1;
        }
        proof {
            assert(self.items_seq().take(n as int) =~= self.items_seq());
        }
        out
    }

    /// The completed items, in insertion order.
    pub fn completed_items(&self) -> (r: Vec<&TodoItem>)
        ensures
            presents(r@, completed_of(self.items_seq())),
    {
        let n = self.items.len();
        let mut out: Vec<&TodoItem> = Vec::new();
        proof {
            assert(self.items_seq().take(0) =~= Seq::<TodoItem>::empty());
        }
        let mut i: usize = 0;
        while i < n
            invariant
                n == self.items_seq().len(),
                i <= n,
                presents(out@, completed_of(self.items_seq().take(i as int))),
            decreases n - i,
        {
            proof {
                assert(self.items_seq().take(i as int + 1).drop_last() =~= self.items_seq().take(
                    i as int,
                ));
            }
            if self.items[i].is_completed() {
                out.push(&self.items[i]);
            }
            i += 1;
        }
        proof {
            assert(self.items_seq().take(n as int) =~= self.items_seq());
        }
        out
    }

    /// The items not yet completed, in insertion order.
    pub fn incomplete_items(&self) -> (r: Vec<&TodoItem>)
        ensures
            presents(r@, incomplete_of(self.items_seq())),
    {
        let n = self.items.len();
        let mut out: Vec<&TodoItem> = Vec::new();
        proof {
            assert(self.items_seq().take(0) =~= Seq::<TodoItem>::empty());
        }
        let mut i: usize = 0;
        while i < n
            invariant
                n == self.items_seq().len(),
                i <= n,
                presents(out@, incomplete_of(self.items_seq().take(i as int))),
            decreases n - i,
        {
            proof {
                assert(self.items_seq().take(i as int + 1).drop_last() =~= self.items_seq().take(
                    i as int,
                ));
            }
            if !self.items[i].is_completed() {
                out.push(&self.items[i]);
            }
            i += 1;
        }
        proof {
            assert(self.items_seq().take(n as int) =~= self.items_seq());
        }
        out
    }

    /// The items with the given priority, in insertion order.
    pub fn items_by_priority(&self, priority: Priority) -> (r: Vec<&TodoItem>)
        ensures
            presents(r@, by_priority_of(self.items_seq(), priority)),
    {
        let n = self.items.len();
        let mut out: Vec<&TodoItem> = Vec::new();
        proof {
            assert(self.items_seq().take(0) =~= Seq::<TodoItem>::empty());
        }
        let mut i: usize = 0;
        while i < n
            invariant
                n == self.items_seq().len(),
                i <= n,
                presents(out@, by_priority_of(self.items_seq().take(i as int), priority)),
            decreases n - i,
        {
            proof {
                assert(self.items_seq().take(i as int + 1).drop_last() =~= self.items_seq().take(
                    i as int,
                ));
            }
            if self.items[i].priority() == priority {
                out.push(&self.items[i]);
            }
            i += 1;
        }
        proof {
            assert(self.items_seq().take(n as int) =~= self.items_seq());
        }
        out
    }

    /// The items with the given status, in insertion order.
    pub fn items_by_status(&self, status: Status) -> (r: Vec<&TodoItem>)
        ensures
            presents(r@, by_status_of(self.items_seq(), status)),
    {
        let n = self.items.len();
        let mut out: Vec<&TodoItem> = Vec::new();
        proof {
            assert(self.items_seq().take(0) =~= Seq::<TodoItem>::empty());
        }
        let mut i: usize = 0;
        while i < n
            invariant
                n == self.items_seq().len(),
                i <= n,
                presents(out@, by_status_of(self.items_seq().take(i as int), status)),
            decreases n - i,
        {
            proof {
                assert(self.items_seq().take(i as int + 1).drop_last() =~= self.items_seq().take(
                    i as int,
                ));
            }
            if self.items[i].status() == status {
                out.push(&self.items[i]);
            }
            i += 1;
        }
        proof {
            assert(self.items_seq().take(n as int) =~= self.items_seq());
        }
        out
    }

    /// The items overdue right now, in insertion order. The clock is
    /// sampled once, at call time.
    pub fn overdue_items(&self) -> (r: Vec<&TodoItem>)
        ensures
            exists|now: u64| presents(r@, overdue_of(self.items_seq(), now)),
    {
        let now = sys::now_seconds();
        let n = self.items.len();
        let mut out: Vec<&TodoItem> = Vec::new();
        proof {
            assert(self.items_seq().take(0) =~= Seq::<TodoItem>::empty());
        }
        let mut i: usize = 0;
        while i < n
            invariant
                n == self.items_seq().len(),
                i <= n,
                presents(out@, overdue_of(self.items_seq().take(i as int), now)),
            decreases n - i,
        {
            proof {
                assert(self.items_seq().take(i as int + 1).drop_last() =~= self.items_seq().take(
                    i as int,
                ));
            }
            if self.items[i].is_overdue_at(now) {
                out.push(&self.items[i]);
            }
            i += 1;
        }
        proof {
            assert(self.items_seq().take(n as int) =~= self.items_seq());
        }
        out
    }

    /// The items ordered by a caller-supplied integer key, smallest
    /// first. The sort is stable: items with equal keys keep their stored
    /// order. The witness ties every item's key to one call of `key_fn`,
    /// and the index permutation carries both sortedness and stability.
    pub fn sorted_items<F: Fn(&TodoItem) -> u64>(&self, key_fn: F) -> (r: Vec<&TodoItem>)
        requires
            forall|i: int|
                0 <= i < self.items_seq().len() ==> key_fn.requires((&self.items_seq()[i],)),
        ensures
            exists|keys: Seq<u64>, perm: Seq<int>|
                {
                    &&& #[trigger] keys.len() == self.items_seq().len()
                    &&& #[trigger] perm.len() == keys.len()
                    &&& (forall|i: int|
                        0 <= i < keys.len() ==> key_fn.ensures(
                            (&self.items_seq()[i],),
                            #[trigger] keys[i],
                        ))
                    &&& (forall|k: int| 0 <= k < perm.len() ==> 0 <= #[trigger] perm[k] < perm.len())
                    &&& (forall|k1: int, k2: int|
                        0 <= k1 < k2 < perm.len() ==> perm[k1] != perm[k2])
                    &&& r@.len() == perm.len()
                    &&& (forall|k: int|
                        0 <= k < r@.len() ==> *(#[trigger] r@[k]) == self.items_seq()[perm[k]])
                    &&& (forall|k1: int, k2: int|
                        0 <= k1 < k2 < perm.len() ==> keys[perm[k1]] < keys[perm[k2]] || (
                        keys[perm[k1]] == keys[perm[k2]] && perm[k1] < perm[k2]))
                },
    {
        let n = self.items.len();
        // observe every key once, in stored order
        let mut keyed: Vec<(usize, u64)> = Vec::new();
        let ghost mut keys: Seq<u64> = Seq::empty();
        let mut i: usize = 0;
        while i < n
            invariant
                n == self.items_seq().len(),
                i <= n,
                forall|i2: int|
                    0 <= i2 < self.items_seq().len() ==> key_fn.requires(
                        (&self.items_seq()[i2],),
                    ),
                keys.len() == i as int,
                forall|j: int|
                    0 <= j < i ==> key_fn.ensures((&self.items_seq()[j],), #[trigger] keys[j]),
                keyed@.len() == i as int,
                forall|j: int| 0 <= j < i ==> #[trigger] keyed@[j] == (j as usize, keys[j]),
            decreases n - i,
        {
            let k = key_fn(&self.items[i]);
            keyed.push((i, k));
            proof {
                keys = keys.push(k);
            }
            i += 1;
        }
        // stable insertion sort on (key, stored position)
        let mut sorted: Vec<(usize, u64)> = Vec::new();
        let mut t: usize = 0;
        while t < n
            invariant
                n == self.items_seq().len(),
                t <= n,
                keys.len() == n as int,
                keyed@.len() == n as int,
                forall|j: int| 0 <= j < n ==> #[trigger] keyed@[j] == (j as usize, keys[j]),
                sorted@.len() == t as int,
                forall|k: int|
                    0 <= k < sorted@.len() ==> (#[trigger] sorted@[k]).0 < t && sorted@[k] == (
                    sorted@[k].0,
                    keys[sorted@[k].0 as int],
                ),
                forall|k1: int, k2: int|
                    0 <= k1 < k2 < sorted@.len() ==> sorted@[k1].0 != sorted@[k2].0,
                forall|k1: int, k2: int|
                    0 <= k1 < k2 < sorted@.len() ==> sorted@[k1].1 < sorted@[k2].1 || (
                    sorted@[k1].1 == sorted@[k2].1 && sorted@[k1].0 < sorted@[k2].0),
            decreases n - t,
        {
            let e = keyed[t];
            let mut pos = sorted.len();
            while pos > 0 && sorted[pos - 1].1 > e.1
                invariant
                    pos <= sorted@.len(),
                    forall|j: int| pos <= j < sorted@.len() ==> (#[trigger] sorted@[j]).1 > e.1,
                decreases pos,
            {
                pos -= 1;
            }
            proof {
                assert forall|j: int| 0 <= j < pos implies (#[trigger] sorted@[j]).1 <= e.1 by {
                    if sorted@[j].1 > sorted@[pos - 1].1 {
                        assert(sorted@[j].1 < sorted@[pos - 1].1 || (sorted@[j].1 == sorted@[pos
                            - 1].1 && sorted@[j].0 < sorted@[pos - 1].0));
                    }
                }
            }
            let ghost presorted = sorted@;
            sorted.insert(pos, e);
            proof {
                assert(forall|k: int| 0 <= k < pos ==> sorted@[k] == presorted[k]);
                assert(sorted@[pos as int] == e);
                assert(forall|k: int|
                    pos < k < sorted@.len() ==> sorted@[k] == presorted[k - 1]);
                assert(e == (t as usize, keys[t as int]));
                assert forall|k1: int, k2: int|
                    0 <= k1 < k2 < sorted@.len() implies (sorted@[k1].1 < sorted@[k2].1 || (
                sorted@[k1].1 == sorted@[k2].1 && sorted@[k1].0 < sorted@[k2].0)) by {
                    if k1 == pos {
                        assert(sorted@[k2] == presorted[k2 - 1]);
                        assert(presorted[k2 - 1].1 > e.1);
                    } else if k2 == pos {
                        assert(sorted@[k1] == presorted[k1]);
                        assert(presorted[k1].1 <= e.1);
                        assert(presorted[k1].0 < t);
                    }
                }
            }
            t += 1;
        }
        // read the items back in sorted order
        let mut out: Vec<&TodoItem> = Vec::new();
        let mut w: usize = 0;
        while w < n
            invariant
                n == self.items_seq().len(),
                w <= n,
                sorted@.len() == n as int,
                forall|k: int| 0 <= k < sorted@.len() ==> (#[trigger] sorted@[k]).0 < n,
                out@.len() == w as int,
                forall|k: int|
                    0 <= k < w ==> *(#[trigger] out@[k]) == self.items_seq()[sorted@[k].0 as int],
            decreases n - w,
        {
            let idx = sorted[w].0;
            out.push(&self.items[idx]);
            w += 1;
        }
        proof {
            let perm = Seq::new(n as nat, |k: int| sorted@[k].0 as int);
            assert(keys.len() == self.items_seq().len());
            assert forall|k: int| 0 <= k < perm.len() implies 0 <= #[trigger] perm[k]
                < perm.len() by {
                assert(sorted@[k].0 < n);
            }
            assert forall|k: int| 0 <= k < out@.len() implies *(#[trigger] out@[k])
                == self.items_seq()[perm[k]] by {
                assert(perm[k] == sorted@[k].0 as int);
            }
            assert forall|k1: int, k2: int|
                0 <= k1 < k2 < perm.len() implies (keys[perm[k1]] < keys[perm[k2]] || (
            keys[perm[k1]] == keys[perm[k2]] && perm[k1] < perm[k2])) by {
                assert(sorted@[k1].1 == keys[sorted@[k1].0 as int]);
                assert(sorted@[k2].1 == keys[sorted@[k2].0 as int]);
            }
            assert forall|k1: int, k2: int|
                0 <= k1 < k2 < perm.len() implies perm[k1] != perm[k2] by {
                assert(sorted@[k1].0 != sorted@[k2].0);
            }
            assert({
                &&& keys.len() == self.items_seq().len()
                &&& perm.len() == keys.len()
                &&& (forall|i2: int|
                    0 <= i2 < keys.len() ==> key_fn.ensures(
                        (&self.items_seq()[i2],),
                        #[trigger] keys[i2],
                    ))
                &&& (forall|k: int| 0 <= k < perm.len() ==> 0 <= #[trigger] perm[k] < perm.len())
                &&& (forall|k1: int, k2: int| 0 <= k1 < k2 < perm.len() ==> perm[k1] != perm[k2])
                &&& out@.len() == perm.len()
                &&& (forall|k: int|
                    0 <= k < out@.len() ==> *(#[trigger] out@[k]) == self.items_seq()[perm[k]])
                &&& (forall|k1: int, k2: int|
                    0 <= k1 < k2 < perm.len() ==> keys[perm[k1]] < keys[perm[k2]] || (
                    keys[perm[k1]] == keys[perm[k2]] && perm[k1] < perm[k2]))
            });
        }
        out
    }

    /// The id handed back as-is when it is live, absent otherwise.
    pub fn find_item_index(&self, id: &u128) -> (r: Option<u128>)
        requires
            self.wf(),
        ensures
            r == (if self.contains_id(*id) {
                Some(*id)
            } else {
                None::<u128>
            }),
    {
        match self.find_index(*id) {
            Some(_) => Some(*id),
            None => None,
        }
    }

    /// Replace the item stored under `id` with a caller-supplied one,
    /// keeping the stored identity and the old parent link so that the
    /// hierarchy stays consistent. Hands back the item as stored, or
    /// `None` — leaving the list untouched — when `id` is not live.
    pub fn replace_item_at_index(&mut self, id: u128, new_item: TodoItem) -> (r: Option<TodoItem>)
        requires
            old(self).wf(),
            new_item.wf(),
        ensures
            final(self).spec_name() == old(self).spec_name(),
            final(self).edges() == old(self).edges(),
            r is Some <==> old(self).contains_id(id),
            match r {
                Some(x) => {
                    &&& x@ == (ItemModel {
                        id: id,
                        parent_id: old(self).item_model(id).parent_id,
                        ..new_item@
                    })
                    &&& final(self).wf()
                    &&& final(self).items_seq().len() == old(self).items_seq().len()
                    &&& forall|j: int|
                        0 <= j < old(self).items_seq().len() && j != old(self).idx_of(id)
                            ==> final(self).items_seq()[j] == old(self).items_seq()[j]
                    &&& final(self).contains_id(id)
                    &&& final(self).item_model(id) == x@
                },
                None => *final(self) == *old(self),
            },
    {
        let ghost pre = *old(self);
        let idx = match self.find_index(id) {
            Some(i) => i,
            None => {
                return None;
            },
        };
        let parent = self.items[idx].parent_id();
        let mut item = new_item;
        item.set_id(id);
        item.set_parent_id(parent);
        let ret = item.clone();
        let ghost x = item;
        self.items[idx] = item;
        proof {
            assert(self.items_seq() == pre.items_seq().update(idx as int, x));
            TodoList::lemma_edit_preserves_wf(pre, *self, id, x);
            assert(self.items_seq()[idx as int]@.id == id);
            let qi = self.idx_of(id);
            if qi != idx as int {
                assert(pre.items_seq()[qi]@.id == id);
            }
            assert(qi == idx as int);
        }
        Some(ret)
    }

    /// Is `x` live with a chain of at most `n` live parent links up to a
    /// root item? Items filed under a dangling parent key are not
    /// grounded, and neither is anything on or below a parent cycle: the
    /// traversal from the roots reaches exactly the grounded items.
    pub open spec fn grounded(self, x: u128, n: nat) -> bool
        decreases n,
    {
        self.contains_id(x) && match self.item_model(x).parent_id {
            None => true,
            Some(p) => n > 0 && self.grounded(p, (n - 1) as nat),
        }
    }

    /// The central invariant, spelled out: in a well-formed list, every
    /// live id stands on exactly one edge of the hierarchy index, that
    /// edge's parent key equals the item's own `parent_id`, and the id is
    /// listed in that parent's bucket. Constructors establish `wf` and
    /// every mutating operation preserves it, so this holds after any
    /// sequence of operations.
    pub proof fn lemma_hierarchy_consistent(self, id: u128)
        requires
            self.wf(),
            self.contains_id(id),
        ensures
            exists|e: int|
                0 <= e < self.edges().len() && self.edges()[e] == (
                self.item_model(id).parent_id,
                id,
                ),
            forall|e1: int, e2: int|
                0 <= e1 < self.edges().len() && 0 <= e2 < self.edges().len() && self.edges()[e1].1
                    == id && self.edges()[e2].1 == id ==> e1 == e2,
            self.children_of(self.item_model(id).parent_id).contains(id),
    {
        let i = self.idx_of(id);
        assert(self.items_seq()[i]@.id == id);
        assert(has_child(self.edges(), id));
        let e = choose|e: int| 0 <= e < self.edges().len() && self.edges()[e].1 == id;
        assert(self.contains_id(self.edges()[e].1));
        assert(self.edges()[e] == (self.item_model(id).parent_id, id));
        lemma_children_in_complete(self.edges(), e);
    }

    /// The depth-annotated traversal lists no item twice: the root bucket
    /// holds distinct root items, every reached node is grounded, and the
    /// subtrees of distinct siblings share nothing.
    pub proof fn lemma_hierarchy_view_no_duplicates(self)
        requires
            self.wf(),
        ensures
            forall|k1: int, k2: int|
                0 <= k1 < k2 < self.spec_hierarchy().len() ==> self.spec_hierarchy()[k1].0
                    != self.spec_hierarchy()[k2].0,
    {
        let roots = self.children_of(None);
        lemma_children_in_nodup(self.edges(), None);
        assert forall|j: int| 0 <= j < roots.len() implies self.contains_id(#[trigger] roots[j])
            && self.item_model(roots[j]).parent_id == None::<u128> && (exists|n: nat|
            self.grounded(roots[j], n)) by {
            lemma_children_in_edge(self.edges(), None, j);
            let e = choose|e: int|
                0 <= e < self.edges().len() && self.edges()[e] == (None::<u128>, roots[j]);
            assert(self.contains_id(self.edges()[e].1));
            assert(self.grounded(roots[j], 0));
        }
        lemma_list_no_dup(self, roots, 0, self.items_seq().len(), None);
    }

    /// The depth-annotated traversal invents nothing: every id it lists
    /// belongs to a grounded item.
    pub proof fn lemma_hierarchy_view_sound(self, x: u128)
        requires
            self.wf(),
            emits(self.spec_hierarchy(), x),
        ensures
            exists|n: nat| self.grounded(x, n),
    {
        let roots = self.children_of(None);
        let fuel = self.items_seq().len();
        lemma_list_emits_subtrees(self, roots, 0, fuel);
        let po = self.spec_hierarchy();
        let k = choose|k: int| 0 <= k < po.len() && (#[trigger] po[k]).0 == x;
        let j = choose|j: int| 0 <= j < roots.len() && self.in_subtree(po[k].0, roots[j]);
        lemma_children_in_edge(self.edges(), None, j);
        let e = choose|e: int|
            0 <= e < self.edges().len() && self.edges()[e] == (None::<u128>, roots[j]);
        assert(self.contains_id(self.edges()[e].1));
        assert(self.grounded(roots[j], 0));
        if x == roots[j] {
        } else {
            let m = choose|m: nat| self.descends(x, roots[j], m);
            lemma_descendant_grounded(self, x, roots[j], m, 0);
        }
    }

    /// The depth-annotated traversal misses nothing: every grounded item
    /// is listed. Together with `lemma_hierarchy_view_no_duplicates` this
    /// pins the traversal's contents exactly: each grounded item once,
    /// anything else never.
    pub proof fn lemma_hierarchy_view_complete(self, x: u128, n: nat)
        requires
            self.wf(),
            self.grounded(x, n),
        ensures
            emits(self.spec_hierarchy(), x),
    {
        let c = gchain_build(self, x, n);
        assert forall|i: int, j: int|
            0 <= i < c.len() && 0 <= j < c.len() && i != j implies c[i] != c[j] by {
            if i < j {
                gchain_distinct_at(self, c, x, i, j);
            } else {
                gchain_distinct_at(self, c, x, j, i);
            }
        }
        lemma_distinct_live_bound(self, c);
        let t = c.len() - 1;
        lemma_chain_emits(self, c, x, t as int);
        let fuel = self.items_seq().len();
        lemma_node_emits_mono(self, c[t as int], 0, (t + 1) as nat, 0, fuel, x);
        // the chain's top is a root item, so its subtree hangs off the
        // root bucket
        let r = c[t as int];
        let i = self.idx_of(r);
        assert(self.items_seq()[i]@.id == r);
        assert(has_child(self.edges(), r));
        let e = choose|e: int| 0 <= e < self.edges().len() && self.edges()[e].1 == r;
        assert(self.edges()[e].0 == None::<u128>);
        lemma_children_in_complete(self.edges(), e);
        assert(self.children_of(None).contains(r));
        lemma_list_contains_node(self, self.children_of(None), 0, fuel, r, x);
    }

    /// Removing a subtree takes away exactly as many items as the subtree
    /// holds: the count of the remaining items plus the size of the
    /// subtree's id set gives the old count back.
    pub proof fn lemma_remove_count(self, rid: u128)
        requires
            self.wf(),
            self.contains_id(rid),
        ensures
            self.subtree_set(rid).finite(),
            items_outside(self.items_seq(), self.subtree_set(rid)).len() + self.subtree_set(
                rid,
            ).len() == self.items_seq().len(),
    {
        broadcast use vstd::seq_lib::seq_to_set_is_finite;

        let r = self.subtree_set(rid);
        let ids = self.items_seq().map_values(|it: TodoItem| it@.id);
        assert forall|x: u128| r.contains(x) implies ids.to_set().contains(x) by {
            assert(self.in_subtree(x, rid));
            if x != rid {
                let n = choose|n: nat| self.descends(x, rid, n);
                assert(self.contains_id(x));
            }
            let i = self.idx_of(x);
            assert(ids[i] == x);
            assert(ids.contains(x));
        }
        lemma_len_subset(r, ids.to_set());
        lemma_items_outside_len(self.items_seq(), r);
        lemma_num_in_is_card(self.items_seq(), r);
    }

    /// The ids in the bucket of parent key `p`, in order.
    fn bucket_ids(&self, p: Option<u128>) -> (r: Vec<u128>)
        ensures
            r@ == children_in(self.edges(), p),
    {
        let n = self.hierarchy.len();
        let mut out: Vec<u128> = Vec::new();
        let mut k: usize = 0;
        while k < n
            invariant
                n == self.edges().len(),
                k <= n,
                out@ == children_in(self.edges().take(k as int), p),
            decreases n - k,
        {
            let e = self.hierarchy[k];
            proof {
                assert(self.edges().take(k as int + 1).drop_last() =~= self.edges().take(k as int));
                assert(self.edges().take(k as int + 1).last() == self.edges()[k as int]);
            }
            let keep = match (e.0, p) {
                (None, None) => true,
                (Some(a), Some(b)) => a == b,
                _ => false,
            };
            if keep {
                out.push(e.1);
            }
            k += 1;
        }
        proof {
            assert(self.edges().take(n as int) =~= self.edges());
        }
        out
    }

    /// The ids of the children of `parent_id`, in bucket order.
    pub fn child_ids(&self, parent_id: u128) -> (r: Vec<u128>)
        ensures
            r@ == self.children_of(Some(parent_id)),
    {
        self.bucket_ids(Some(parent_id))
    }

    /// The ids of the root items (items with no parent), in bucket order.
    pub fn root_item_ids(&self) -> (r: Vec<u128>)
        ensures
            r@ == self.children_of(None),
    {
        self.bucket_ids(None)
    }

    /// References to the children of `parent_id`, in bucket order.
    pub fn children(&self, parent_id: u128) -> (r: Vec<&TodoItem>)
        requires
            self.wf(),
        ensures
            r@.len() == self.children_of(Some(parent_id)).len(),
            forall|k: int|
                0 <= k < r@.len() ==> (#[trigger] r@[k])@ == self.item_model(
                    self.children_of(Some(parent_id))[k],
                ),
    {
        self.bucket_items(Some(parent_id))
    }

    /// References to the root items, in bucket order.
    pub fn root_items(&self) -> (r: Vec<&TodoItem>)
        requires
            self.wf(),
        ensures
            r@.len() == self.children_of(None).len(),
            forall|k: int|
                0 <= k < r@.len() ==> (#[trigger] r@[k])@ == self.item_model(
                    self.children_of(None)[k],
                ),
    {
        self.bucket_items(None)
    }

    /// References to the items of one bucket, in bucket order.
    fn bucket_items(&self, p: Option<u128>) -> (r: Vec<&TodoItem>)
        requires
            self.wf(),
        ensures
            r@.len() == self.children_of(p).len(),
            forall|k: int|
                0 <= k < r@.len() ==> (#[trigger] r@[k])@ == self.item_model(
                    self.children_of(p)[k],
                ),
    {
        let ids = self.bucket_ids(p);
        let n = ids.len();
        let mut out: Vec<&TodoItem> = Vec::new();
        let mut k: usize = 0;
        while k < n
            invariant
                self.wf(),
                n == ids@.len(),
                ids@ == self.children_of(p),
                k <= n,
                out@.len() == k,
                forall|j: int|
                    0 <= j < k ==> (#[trigger] out@[j])@ == self.item_model(
                        self.children_of(p)[j],
                    ),
            decreases n - k,
        {
            let c = ids[k];
            proof {
                lemma_children_in_live(self.edges(), p, k as int);
                let e = choose|e: int| 0 <= e < self.edges().len() && self.edges()[e].1 == c;
                assert(self.contains_id(self.edges()[e].1));
            }
            match self.find_index(c) {
                Some(i) => {
                    out.push(&self.items[i]);
                },
                None => {
                    proof {
                        assert(false);
                    }
                },
            }
            k += 1;
        }
        out
    }
}

/// Dropping the edges of one child keeps every other edge, its order, and
/// child-uniqueness, and leaves no edge of the dropped child behind.
proof fn lemma_edges_without_props(s: Seq<Edge>, id: u128)
    ensures
        forall|k: int|
            0 <= k < edges_without(s, id).len() ==> (#[trigger] edges_without(s, id)[k]).1 != id,
        forall|k: int|
            0 <= k < edges_without(s, id).len() ==> s.contains(#[trigger] edges_without(s, id)[k]),
        forall|c: u128| has_child(edges_without(s, id), c) ==> has_child(s, c),
        child_unique(s) ==> child_unique(edges_without(s, id)),
        forall|k: int|
            0 <= k < s.len() && (#[trigger] s[k]).1 != id ==> edges_without(s, id).contains(s[k]),
    decreases s.len(),
{
    if s.len() > 0 {
        let dl = s.drop_last();
        lemma_edges_without_props(dl, id);
        let ew = edges_without(s, id);
        let ewdl = edges_without(dl, id);
        assert forall|k: int| 0 <= k < ew.len() implies s.contains(#[trigger] ew[k]) by {
            if k < ewdl.len() {
                assert(dl.contains(ewdl[k]));
                let e = choose|e: int| 0 <= e < dl.len() && dl[e] == ewdl[k];
                assert(s[e] == ew[k]);
            } else {
                assert(s[s.len() - 1] == ew[k]);
            }
        }
        assert forall|c: u128| has_child(ew, c) implies has_child(s, c) by {
            let k = choose|k: int| 0 <= k < ew.len() && ew[k].1 == c;
            let e = choose|e: int| 0 <= e < s.len() && s[e] == ew[k];
            assert(s[e].1 == c);
        }
        if child_unique(s) {
            assert(child_unique(dl));
            if s.last().1 != id {
                assert forall|i: int, j: int| 0 <= i < j < ew.len() implies ew[i].1 != ew[j].1 by {
                    if j == ew.len() - 1 {
                        assert(ew[j] == s.last());
                        assert(has_child(ewdl, ew[i].1) ==> has_child(dl, ew[i].1));
                        if ew[i].1 == s.last().1 {
                            assert(has_child(ewdl, ew[i].1));
                            let e = choose|e: int| 0 <= e < dl.len() && dl[e].1 == ew[i].1;
                            assert(s[e].1 == s[s.len() - 1].1);
                            assert(false);
                        }
                    }
                }
            }
        }
        assert forall|k: int|
            0 <= k < s.len() && (#[trigger] s[k]).1 != id implies ew.contains(s[k]) by {
            if k < s.len() - 1 {
                assert(dl[k] == s[k]);
                assert(ewdl.contains(dl[k]));
                let w = choose|w: int| 0 <= w < ewdl.len() && ewdl[w] == s[k];
                assert(ew[w] == s[k]);
            } else {
                assert(ew[ew.len() - 1] == s[k]);
            }
        }
    }
}

/// After replacing the item that carries id `x@.id` by `x` and re-filing
/// its index entry under `x@.parent_id`, the list is well-formed again and
/// every other item is untouched.
proof fn lemma_refile_update_wf(pre: TodoList, post: TodoList, x: TodoItem)
    requires
        pre.wf(),
        x.wf(),
        pre.contains_id(x@.id),
        post.items_seq() == pre.items_seq().update(pre.idx_of(x@.id), x),
        post.edges() == edges_without(pre.edges(), x@.id).push((x@.parent_id, x@.id)),
    ensures
        post.wf(),
        post.contains_id(x@.id),
        post.item_model(x@.id) == x@,
        forall|c: u128| c != x@.id ==> (post.contains_id(c) <==> pre.contains_id(c)),
        forall|c: u128|
            c != x@.id && pre.contains_id(c) ==> post.item_model(c) == pre.item_model(c),
{
    let id = x@.id;
    lemma_edges_without_props(pre.edges(), id);
    let ew = edges_without(pre.edges(), id);
    let i = pre.idx_of(id);
    assert(forall|j: int|
        0 <= j < post.items_seq().len() ==> (#[trigger] post.items_seq()[j])@.id
            == pre.items_seq()[j]@.id);
    assert forall|c: u128| c != id && pre.contains_id(c) implies post.contains_id(c)
        && post.item_model(c) == pre.item_model(c) by {
        let pi = pre.idx_of(c);
        assert(post.items_seq()[pi]@.id == c);
        let qi = post.idx_of(c);
        assert(pre.items_seq()[qi]@.id == c);
        assert(qi == pi);
    }
    assert forall|c: u128| c != id && post.contains_id(c) implies pre.contains_id(c) by {
        let qi = post.idx_of(c);
        assert(pre.items_seq()[qi]@.id == c);
    }
    assert(post.items_unique());
    assert forall|j: int| 0 <= j < post.items_seq().len() implies (
    #[trigger] post.items_seq()[j]).wf() by {
        if j != i {
            assert(post.items_seq()[j] == pre.items_seq()[j]);
        }
    }
    assert(post.contains_id(id) && post.item_model(id) == x@) by {
        assert(post.items_seq()[i]@.id == id);
        let qi = post.idx_of(id);
        assert(pre.items_seq()[qi]@.id == id);
        assert(qi == i);
    }
    lemma_refiled_edges_wf(pre, post, x, ew);
}

/// After appending a brand-new item `x` and filing its index entry under
/// `x@.parent_id`, the list is well-formed again and every other item is
/// untouched.
proof fn lemma_refile_push_wf(pre: TodoList, post: TodoList, x: TodoItem)
    requires
        pre.wf(),
        x.wf(),
        !pre.contains_id(x@.id),
        post.items_seq() == pre.items_seq().push(x),
        post.edges() == edges_without(pre.edges(), x@.id).push((x@.parent_id, x@.id)),
    ensures
        post.wf(),
        post.contains_id(x@.id),
        post.item_model(x@.id) == x@,
        forall|c: u128| c != x@.id ==> (post.contains_id(c) <==> pre.contains_id(c)),
        forall|c: u128|
            c != x@.id && pre.contains_id(c) ==> post.item_model(c) == pre.item_model(c),
{
    let id = x@.id;
    lemma_edges_without_props(pre.edges(), id);
    let ew = edges_without(pre.edges(), id);
    let n = pre.items_seq().len() as int;
    assert(forall|j: int|
        0 <= j < n ==> (#[trigger] post.items_seq()[j]) == pre.items_seq()[j]);
    assert(post.items_seq()[n]@.id == id);
    assert forall|c: u128| c != id && pre.contains_id(c) implies post.contains_id(c)
        && post.item_model(c) == pre.item_model(c) by {
        let pi = pre.idx_of(c);
        assert(post.items_seq()[pi]@.id == c);
        let qi = post.idx_of(c);
        assert(qi != n);
        assert(pre.items_seq()[qi]@.id == c);
        assert(qi == pi);
    }
    assert forall|c: u128| c != id && post.contains_id(c) implies pre.contains_id(c) by {
        let qi = post.idx_of(c);
        assert(qi != n);
        assert(pre.items_seq()[qi]@.id == c);
    }
    assert forall|a: int, b: int|
        0 <= a < b < post.items_seq().len() implies post.items_seq()[a]@.id
        != post.items_seq()[b]@.id by {
        if b == n && post.items_seq()[a]@.id == id {
            assert(pre.contains_id(id));
        }
    }
    assert forall|j: int| 0 <= j < post.items_seq().len() implies (
    #[trigger] post.items_seq()[j]).wf() by {
        if j != n {
            assert(post.items_seq()[j] == pre.items_seq()[j]);
        }
    }
    assert(post.contains_id(id) && post.item_model(id) == x@) by {
        let qi = post.idx_of(id);
        if qi != n {
            assert(pre.items_seq()[qi]@.id == id);
            assert(pre.contains_id(id));
        }
    }
    lemma_refiled_edges_wf(pre, post, x, ew);
}

/// Shared edge-side argument for the two refiling lemmas: with the items
/// already shown stable, the rebuilt edge list is child-unique, sound, and
/// indexes every live item.
proof fn lemma_refiled_edges_wf(pre: TodoList, post: TodoList, x: TodoItem, ew: Seq<Edge>)
    requires
        pre.wf(),
        ew == edges_without(pre.edges(), x@.id),
        post.edges() == ew.push((x@.parent_id, x@.id)),
        post.items_seq().len() >= pre.items_seq().len(),
        forall|j: int|
            0 <= j < pre.items_seq().len() ==> (#[trigger] post.items_seq()[j])@.id
                == pre.items_seq()[j]@.id,
        forall|j: int|
            pre.items_seq().len() <= j < post.items_seq().len() ==> (
            #[trigger] post.items_seq()[j])@.id == x@.id,
        post.contains_id(x@.id),
        post.item_model(x@.id) == x@,
        forall|c: u128| c != x@.id ==> (post.contains_id(c) <==> pre.contains_id(c)),
        forall|c: u128|
            c != x@.id && pre.contains_id(c) ==> post.item_model(c) == pre.item_model(c),
    ensures
        child_unique(post.edges()),
        post.edges_sound(),
        post.items_indexed(),
{
    let id = x@.id;
    lemma_edges_without_props(pre.edges(), id);
    assert(child_unique(post.edges())) by {
        assert(forall|k: int| 0 <= k < ew.len() ==> (#[trigger] post.edges()[k]) == ew[k]);
    }
    assert(post.edges_sound()) by {
        assert forall|k: int| 0 <= k < post.edges().len() implies post.contains_id(
            #[trigger] post.edges()[k].1,
        ) && post.item_model(post.edges()[k].1).parent_id == post.edges()[k].0 by {
            if k < ew.len() {
                assert(post.edges()[k] == ew[k]);
                assert(pre.edges().contains(ew[k]));
                let e = choose|e: int| 0 <= e < pre.edges().len() && pre.edges()[e] == ew[k];
                assert(pre.contains_id(pre.edges()[e].1));
                assert(ew[k].1 != id);
            }
        }
    }
    assert(post.items_indexed()) by {
        assert forall|j: int| 0 <= j < post.items_seq().len() implies has_child(
            post.edges(),
            #[trigger] post.items_seq()[j]@.id,
        ) by {
            let c = post.items_seq()[j]@.id;
            if c == id {
                assert(post.edges()[post.edges().len() - 1].1 == id);
            } else {
                assert(pre.items_seq()[j]@.id == c);
                assert(has_child(pre.edges(), c));
                let e = choose|e: int| 0 <= e < pre.edges().len() && pre.edges()[e].1 == c;
                assert(ew.contains(pre.edges()[e]));
                let w = choose|w: int| 0 <= w < ew.len() && ew[w] == pre.edges()[e];
                assert(post.edges()[w].1 == c);
            }
        }
    }
}

/// Equality of two optional ids.
fn opt_id_eq(a: Option<u128>, b: Option<u128>) -> (r: bool)
    ensures
        r == (a == b),
{
    match (a, b) {
        (None, None) => true,
        (Some(x), Some(y)) => x == y,
        _ => false,
    }
}

/// Linear scan for an id.
fn vec_contains_id(v: &Vec<u128>, x: u128) -> (r: bool)
    ensures
        r == v@.contains(x),
{
    let n = v.len();
    let mut i: usize = 0;
    while i < n
        invariant
            n == v@.len(),
            i <= n,
            forall|j: int| 0 <= j < i ==> v@[j] != x,
        decreases n - i,
    {
        if v[i] == x {
            return true;
        }
        i += 1;
    }
    false
}

/// Every edge's child is listed in its parent's bucket.
proof fn lemma_children_in_complete(s: Seq<Edge>, e: int)
    requires
        0 <= e < s.len(),
    ensures
        children_in(s, s[e].0).contains(s[e].1),
    decreases s.len(),
{
    let p = s[e].0;
    if e == s.len() - 1 {
        assert(children_in(s, p).last() == s[e].1);
    } else {
        lemma_children_in_complete(s.drop_last(), e);
        assert(s.drop_last()[e] == s[e]);
        let rest = children_in(s.drop_last(), p);
        let k = choose|k: int| 0 <= k < rest.len() && rest[k] == s[e].1;
        if s.last().0 == p {
            assert(children_in(s, p)[k] == s[e].1);
        } else {
            assert(children_in(s, p)[k] == s[e].1);
        }
    }
}

/// The edges that file the ids of `order` under parent key `p`, in order.
pub open spec fn bucket_edges(p: Option<u128>, order: Seq<u128>) -> Seq<Edge>
    decreases order.len(),
{
    if order.len() == 0 {
        Seq::empty()
    } else {
        bucket_edges(p, order.drop_last()).push((p, order.last()))
    }
}

/// Appending one edge extends exactly its own bucket.
proof fn lemma_children_in_push(s: Seq<Edge>, e: Edge, q: Option<u128>)
    ensures
        children_in(s.push(e), q) == if e.0 == q {
            children_in(s, q).push(e.1)
        } else {
            children_in(s, q)
        },
{
    assert(s.push(e).drop_last() =~= s);
    assert(s.push(e).last() == e);
}

/// Dropping one child's edges from the list removes exactly that id from
/// every bucket.
proof fn lemma_children_in_without(s: Seq<Edge>, id: u128, q: Option<u128>)
    ensures
        children_in(edges_without(s, id), q) == ids_without(children_in(s, q), id),
    decreases s.len(),
{
    if s.len() == 0 {
        assert(children_in(edges_without(s, id), q) =~= ids_without(children_in(s, q), id));
    } else {
        let dl = s.drop_last();
        lemma_children_in_without(dl, id, q);
        if s.last().1 == id {
            assert(edges_without(s, id) == edges_without(dl, id));
            if s.last().0 == q {
                assert(children_in(s, q) == children_in(dl, q).push(id));
                assert(children_in(s, q).drop_last() =~= children_in(dl, q));
            }
        } else {
            assert(edges_without(s, id) == edges_without(dl, id).push(s.last()));
            lemma_children_in_push(edges_without(dl, id), s.last(), q);
            if s.last().0 == q {
                assert(children_in(s, q) == children_in(dl, q).push(s.last().1));
                assert(children_in(s, q).drop_last() =~= children_in(dl, q));
            }
        }
    }
}

/// Dropping one parent key's edges empties exactly that bucket and leaves
/// every other bucket as it was.
proof fn lemma_children_in_key_removed(s: Seq<Edge>, p: Option<u128>, q: Option<u128>)
    ensures
        q == p ==> children_in(edges_without_key(s, p), q) == Seq::<u128>::empty(),
        q != p ==> children_in(edges_without_key(s, p), q) == children_in(s, q),
    decreases s.len(),
{
    if s.len() == 0 {
        assert(children_in(edges_without_key(s, p), q) =~= Seq::<u128>::empty());
    } else {
        let dl = s.drop_last();
        lemma_children_in_key_removed(dl, p, q);
        if s.last().0 == p {
            assert(edges_without_key(s, p) == edges_without_key(dl, p));
        } else {
            assert(edges_without_key(s, p) == edges_without_key(dl, p).push(s.last()));
            lemma_children_in_push(edges_without_key(dl, p), s.last(), q);
        }
    }
}

/// Appending one bucket's edges extends exactly that bucket by the new
/// order and leaves every other bucket as it was.
proof fn lemma_children_in_append_bucket(
    base: Seq<Edge>,
    p: Option<u128>,
    order: Seq<u128>,
    q: Option<u128>,
)
    ensures
        q == p ==> children_in(base + bucket_edges(p, order), q) == children_in(base, q) + order,
        q != p ==> children_in(base + bucket_edges(p, order), q) == children_in(base, q),
    decreases order.len(),
{
    if order.len() == 0 {
        assert(base + bucket_edges(p, order) =~= base);
        if q == p {
            assert(children_in(base, q) + order =~= children_in(base, q));
        }
    } else {
        lemma_children_in_append_bucket(base, p, order.drop_last(), q);
        assert(base + bucket_edges(p, order) =~= (base + bucket_edges(p, order.drop_last())).push(
            (p, order.last()),
        ));
        lemma_children_in_push(base + bucket_edges(p, order.drop_last()), (p, order.last()), q);
        if q == p {
            assert(children_in(base, q) + order =~= (children_in(base, q)
                + order.drop_last()).push(order.last()));
        }
    }
}

/// Dropping a parent key keeps every other edge, its order, and
/// child-uniqueness, and leaves no edge of that key behind.
proof fn lemma_edges_without_key_props(s: Seq<Edge>, p: Option<u128>)
    ensures
        forall|k: int|
            0 <= k < edges_without_key(s, p).len() ==> (#[trigger] edges_without_key(s, p)[k]).0
                != p,
        forall|k: int|
            0 <= k < edges_without_key(s, p).len() ==> s.contains(
                #[trigger] edges_without_key(s, p)[k],
            ),
        forall|c: u128| has_child(edges_without_key(s, p), c) ==> has_child(s, c),
        child_unique(s) ==> child_unique(edges_without_key(s, p)),
        forall|k: int|
            0 <= k < s.len() && (#[trigger] s[k]).0 != p ==> edges_without_key(s, p).contains(
                s[k],
            ),
    decreases s.len(),
{
    if s.len() > 0 {
        let dl = s.drop_last();
        lemma_edges_without_key_props(dl, p);
        let ew = edges_without_key(s, p);
        let ewdl = edges_without_key(dl, p);
        assert forall|k: int| 0 <= k < ew.len() implies s.contains(#[trigger] ew[k]) by {
            if k < ewdl.len() {
                assert(dl.contains(ewdl[k]));
                let e = choose|e: int| 0 <= e < dl.len() && dl[e] == ewdl[k];
                assert(s[e] == ew[k]);
            } else {
                assert(s[s.len() - 1] == ew[k]);
            }
        }
        assert forall|c: u128| has_child(ew, c) implies has_child(s, c) by {
            let k = choose|k: int| 0 <= k < ew.len() && ew[k].1 == c;
            let e = choose|e: int| 0 <= e < s.len() && s[e] == ew[k];
            assert(s[e].1 == c);
        }
        if child_unique(s) {
            assert(child_unique(dl));
            if s.last().0 != p {
                assert forall|i: int, j: int|
                    0 <= i < j < ew.len() implies ew[i].1 != ew[j].1 by {
                    if j == ew.len() - 1 {
                        assert(ew[j] == s.last());
                        if ew[i].1 == s.last().1 {
                            assert(has_child(ewdl, ew[i].1));
                            assert(has_child(dl, ew[i].1));
                            let e = choose|e: int| 0 <= e < dl.len() && dl[e].1 == ew[i].1;
                            assert(s[e].1 == s[s.len() - 1].1);
                            assert(false);
                        }
                    }
                }
            }
        }
        assert forall|k: int|
            0 <= k < s.len() && (#[trigger] s[k]).0 != p implies ew.contains(s[k]) by {
            if k < s.len() - 1 {
                assert(dl[k] == s[k]);
                assert(ewdl.contains(dl[k]));
                let w = choose|w: int| 0 <= w < ewdl.len() && ewdl[w] == s[k];
                assert(ew[w] == s[k]);
            } else {
                assert(ew[ew.len() - 1] == s[k]);
            }
        }
    }
}

/// With child-unique edges, no bucket lists an id twice.
proof fn lemma_children_in_nodup(s: Seq<Edge>, q: Option<u128>)
    requires
        child_unique(s),
    ensures
        children_in(s, q).no_duplicates(),
    decreases s.len(),
{
    if s.len() > 0 {
        let dl = s.drop_last();
        assert(child_unique(dl));
        lemma_children_in_nodup(dl, q);
        if s.last().0 == q {
            let c = children_in(s, q);
            let cdl = children_in(dl, q);
            assert forall|i: int, j: int|
                0 <= i < c.len() && 0 <= j < c.len() && i != j implies c[i] != c[j] by {
                if i == c.len() - 1 || j == c.len() - 1 {
                    let o = if i == c.len() - 1 {
                        j
                    } else {
                        i
                    };
                    if cdl[o] == s.last().1 {
                        lemma_children_in_edge(dl, q, o);
                        let e = choose|e: int| 0 <= e < dl.len() && dl[e] == (q, cdl[o]);
                        assert(s[e].1 == s[s.len() - 1].1);
                        assert(false);
                    }
                }
            }
        }
    }
}

/// What the one-pass rebuild emits: every id but `x` exactly as before,
/// and `x` exactly where `t` stands; the order among the others is kept.
proof fn lemma_place_before_props(b: Seq<u128>, x: u128, t: u128)
    requires
        x != t,
    ensures
        forall|c: u128| c != x ==> (place_before(b, x, t).contains(c) <==> b.contains(c)),
        place_before(b, x, t).contains(x) <==> b.contains(t),
        b.no_duplicates() ==> place_before(b, x, t).no_duplicates(),
    decreases b.len(),
{
    if b.len() > 0 {
        let df = b.drop_first();
        lemma_place_before_props(df, x, t);
        let pl = place_before(b, x, t);
        let pldf = place_before(df, x, t);
        assert(forall|c: u128| #[trigger] b.contains(c) <==> b[0] == c || df.contains(c)) by {
            assert forall|c: u128| b.contains(c) && b[0] != c implies df.contains(c) by {
                let k = choose|k: int| 0 <= k < b.len() && b[k] == c;
                assert(df[k - 1] == c);
            }
            assert forall|c: u128| df.contains(c) implies b.contains(c) by {
                let k = choose|k: int| 0 <= k < df.len() && df[k] == c;
                assert(b[k + 1] == c);
            }
        }
        if b[0] == x {
            assert(pl == pldf);
        } else if b[0] == t {
            assert(pl == seq![x, b[0]] + pldf);
            assert(forall|c: u128|
                #[trigger] pl.contains(c) <==> c == x || c == b[0] || pldf.contains(c)) by {
                assert(pl[0] == x && pl[1] == b[0]);
                assert forall|c: u128| pldf.contains(c) implies pl.contains(c) by {
                    let k = choose|k: int| 0 <= k < pldf.len() && pldf[k] == c;
                    assert(pl[k + 2] == c);
                }
                assert forall|c: u128| pl.contains(c) && c != x && c != b[0]
                    implies pldf.contains(c) by {
                    let k = choose|k: int| 0 <= k < pl.len() && pl[k] == c;
                    assert(pldf[k - 2] == c);
                }
            }
            if b.no_duplicates() {
                assert(df.no_duplicates());
                assert(!df.contains(t));
                assert(!pldf.contains(x));
                assert(!pldf.contains(b[0]));
                assert forall|i: int, j: int|
                    0 <= i < pl.len() && 0 <= j < pl.len() && i != j implies pl[i] != pl[j] by {
                    if i >= 2 && j >= 2 {
                        assert(pl[i] == pldf[i - 2] && pl[j] == pldf[j - 2]);
                    } else if i >= 2 {
                        assert(pl[i] == pldf[i - 2]);
                        assert(pldf.contains(pl[i]));
                    } else if j >= 2 {
                        assert(pl[j] == pldf[j - 2]);
                        assert(pldf.contains(pl[j]));
                    }
                }
            }
        } else {
            assert(pl == seq![b[0]] + pldf);
            assert(forall|c: u128| #[trigger] pl.contains(c) <==> c == b[0] || pldf.contains(c))
                by {
                assert(pl[0] == b[0]);
                assert forall|c: u128| pldf.contains(c) implies pl.contains(c) by {
                    let k = choose|k: int| 0 <= k < pldf.len() && pldf[k] == c;
                    assert(pl[k + 1] == c);
                }
                assert forall|c: u128| pl.contains(c) && c != b[0] implies pldf.contains(c) by {
                    let k = choose|k: int| 0 <= k < pl.len() && pl[k] == c;
                    assert(pldf[k - 1] == c);
                }
            }
            if b.no_duplicates() {
                assert(df.no_duplicates());
                assert(!df.contains(b[0]));
                assert(!pldf.contains(b[0]));
                assert forall|i: int, j: int|
                    0 <= i < pl.len() && 0 <= j < pl.len() && i != j implies pl[i] != pl[j] by {
                    if i >= 1 && j >= 1 {
                        assert(pl[i] == pldf[i - 1] && pl[j] == pldf[j - 1]);
                    } else if i >= 1 {
                        assert(pl[i] == pldf[i - 1]);
                        assert(pldf.contains(pl[i]));
                    } else if j >= 1 {
                        assert(pl[j] == pldf[j - 1]);
                        assert(pldf.contains(pl[j]));
                    }
                }
            }
        }
    }
}

/// After rebuilding the bucket of `p` with a new order holding the same
/// ids, the list is well-formed again; the bucket reads back as the new
/// order and every other bucket as before.
proof fn lemma_reorder_wf(mid: TodoList, post: TodoList, p: Option<u128>, order: Seq<u128>)
    requires
        mid.wf(),
        post.items_seq() == mid.items_seq(),
        post.edges() == edges_without_key(mid.edges(), p) + bucket_edges(p, order),
        order.no_duplicates(),
        forall|c: u128| order.contains(c) <==> children_in(mid.edges(), p).contains(c),
    ensures
        post.wf(),
        children_in(post.edges(), p) == order,
        forall|q: Option<u128>|
            q != p ==> children_in(post.edges(), q) == children_in(mid.edges(), q),
{
    lemma_edges_without_key_props(mid.edges(), p);
    let base = edges_without_key(mid.edges(), p);
    assert forall|q: Option<u128>| true implies children_in(post.edges(), q) == (if q == p {
        order
    } else {
        children_in(mid.edges(), q)
    }) by {
        lemma_children_in_append_bucket(base, p, order, q);
        lemma_children_in_key_removed(mid.edges(), p, q);
        if q == p {
            assert(children_in(base, q) + order =~= order);
        }
    }
    // the two halves of the new edge list, named by index
    let bn = base.len() as int;
    assert(forall|k: int| 0 <= k < bn ==> post.edges()[k] == base[k]);
    lemma_bucket_edges_index(p, order);
    assert(forall|k: int|
        bn <= k < post.edges().len() ==> post.edges()[k] == (p, order[k - bn]));
    assert forall|i: int, j: int|
        0 <= i < j < post.edges().len() implies post.edges()[i].1 != post.edges()[j].1 by {
        if j < bn {
        } else if i >= bn {
            assert(post.edges()[i].1 == order[i - bn] && post.edges()[j].1 == order[j - bn]);
        } else {
            // a child in the rebuilt bucket had its old edge keyed by `p`,
            // which the first half no longer holds
            assert(post.edges()[j].1 == order[j - bn]);
            if base[i].1 == order[j - bn] {
                assert(order.contains(order[j - bn]));
                assert(children_in(mid.edges(), p).contains(order[j - bn]));
                let w = choose|k: int|
                    0 <= k < children_in(mid.edges(), p).len() && children_in(mid.edges(), p)[k]
                        == order[j - bn];
                lemma_children_in_edge(mid.edges(), p, w);
                let e = choose|e: int|
                    0 <= e < mid.edges().len() && mid.edges()[e] == (p, order[j - bn]);
                assert(mid.edges().contains(base[i]));
                let e2 = choose|e2: int|
                    0 <= e2 < mid.edges().len() && mid.edges()[e2] == base[i];
                assert(base[i].0 != p);
                assert(e != e2);
                assert(mid.edges()[e].1 == mid.edges()[e2].1);
                assert(false);
            }
        }
    }
    assert(child_unique(post.edges()));
    assert forall|k: int| 0 <= k < post.edges().len() implies post.contains_id(
        #[trigger] post.edges()[k].1,
    ) && post.item_model(post.edges()[k].1).parent_id == post.edges()[k].0 by {
        if k < bn {
            assert(mid.edges().contains(base[k]));
            let e = choose|e: int| 0 <= e < mid.edges().len() && mid.edges()[e] == base[k];
            assert(mid.contains_id(mid.edges()[e].1));
        } else {
            let c = order[k - bn];
            assert(order.contains(c));
            assert(children_in(mid.edges(), p).contains(c));
            let w = choose|w: int|
                0 <= w < children_in(mid.edges(), p).len() && children_in(mid.edges(), p)[w] == c;
            lemma_children_in_edge(mid.edges(), p, w);
            let e = choose|e: int| 0 <= e < mid.edges().len() && mid.edges()[e] == (p, c);
            assert(mid.contains_id(mid.edges()[e].1));
        }
    }
    assert forall|j: int| 0 <= j < post.items_seq().len() implies has_child(
        post.edges(),
        #[trigger] post.items_seq()[j]@.id,
    ) by {
        let c = post.items_seq()[j]@.id;
        assert(has_child(mid.edges(), c));
        let e = choose|e: int| 0 <= e < mid.edges().len() && mid.edges()[e].1 == c;
        if mid.edges()[e].0 == p {
            lemma_children_in_complete(mid.edges(), e);
            assert(children_in(mid.edges(), p).contains(c));
            assert(order.contains(c));
            let w = choose|w: int| 0 <= w < order.len() && order[w] == c;
            assert(post.edges()[bn + w].1 == c);
        } else {
            assert(base.contains(mid.edges()[e]));
            let w = choose|w: int| 0 <= w < base.len() && base[w] == mid.edges()[e];
            assert(post.edges()[w].1 == c);
        }
    }
}

/// A grounding chain that fits in `n` steps fits in any larger budget.
proof fn lemma_grounded_mono(s: TodoList, x: u128, n: nat, m: nat)
    requires
        s.grounded(x, n),
        n <= m,
    ensures
        s.grounded(x, m),
    decreases n,
{
    match s.item_model(x).parent_id {
        None => {},
        Some(p) => {
            lemma_grounded_mono(s, p, (n - 1) as nat, (m - 1) as nat);
        },
    }
}

/// Every ancestor of a grounded item is grounded, within the same budget.
proof fn lemma_ancestor_grounded(s: TodoList, a: u128, b: u128, m: nat, n: nat)
    requires
        s.descends(a, b, m),
        s.grounded(a, n),
    ensures
        s.grounded(b, n),
    decreases m,
{
    let p = s.item_model(a).parent_id.unwrap();
    if p == b {
        lemma_grounded_mono(s, b, (n - 1) as nat, n);
    } else {
        lemma_ancestor_grounded(s, p, b, (m - 1) as nat, (n - 1) as nat);
        lemma_grounded_mono(s, b, (n - 1) as nat, n);
    }
}

/// Two descent chains splice into one.
proof fn lemma_descends_compose(s: TodoList, a: u128, b: u128, c: u128, m: nat, k: nat)
    requires
        s.descends(a, b, m),
        s.descends(b, c, k),
    ensures
        s.descends(a, c, (m + k + 1) as nat),
    decreases m,
{
    let p = s.item_model(a).parent_id.unwrap();
    if p == b {
        assert(s.descends(a, c, (k + 1) as nat));
        lemma_descends_mono(s, a, c, (k + 1) as nat, (m + k + 1) as nat);
    } else {
        lemma_descends_compose(s, p, b, c, (m - 1) as nat, k);
        assert(s.descends(a, c, (m + k + 1) as nat));
    }
}

/// A descent witnessed in `n` steps is witnessed in any larger budget.
proof fn lemma_descends_mono(s: TodoList, x: u128, r: u128, n: nat, m: nat)
    requires
        s.descends(x, r, n),
        n <= m,
    ensures
        s.descends(x, r, m),
    decreases n,
{
    let p = s.item_model(x).parent_id.unwrap();
    if p != r {
        lemma_descends_mono(s, p, r, (n - 1) as nat, (m - 1) as nat);
    }
}

/// A grounded item is never its own strict descendant: its parent chain
/// runs straight up to a root and cannot come back.
proof fn lemma_grounded_no_self_descent(s: TodoList, x: u128, n: nat, m: nat)
    requires
        s.grounded(x, n),
    ensures
        !s.descends(x, x, m),
    decreases n,
{
    if s.descends(x, x, m) {
        let p = s.item_model(x).parent_id.unwrap();
        if p == x {
            lemma_grounded_no_self_descent(s, x, (n - 1) as nat, m);
        } else {
            lemma_ancestor_grounded(s, p, x, (m - 1) as nat, (n - 1) as nat);
            lemma_grounded_no_self_descent(s, x, (n - 1) as nat, m);
        }
    }
}

/// Two ancestors of one item sit on one chain: they are equal, or one
/// descends from the other.
proof fn lemma_descends_linear(s: TodoList, a: u128, x: u128, y: u128, nx: nat, ny: nat)
    requires
        s.descends(a, x, nx),
        s.descends(a, y, ny),
    ensures
        x == y || (exists|k: nat| s.descends(x, y, k)) || (exists|k: nat| s.descends(y, x, k)),
    decreases nx,
{
    let p = s.item_model(a).parent_id.unwrap();
    if p == x && p == y {
    } else if p == x {
        assert(s.descends(p, y, (ny - 1) as nat));
        assert(s.descends(x, y, (ny - 1) as nat));
    } else if p == y {
        assert(s.descends(p, x, (nx - 1) as nat));
        assert(s.descends(y, x, (nx - 1) as nat));
    } else {
        lemma_descends_linear(s, p, x, y, (nx - 1) as nat, (ny - 1) as nat);
    }
}

/// A subtree grows upward one live link at a time.
proof fn lemma_subtree_extend(s: TodoList, x: u128, c: u128, id: u128)
    requires
        s.in_subtree(x, c),
        s.contains_id(c),
        s.item_model(c).parent_id == Some(id),
    ensures
        s.in_subtree(x, id),
{
    if x == c {
        assert(s.descends(c, id, 0));
    } else {
        let n = choose|n: nat| s.descends(x, c, n);
        assert(s.descends(c, id, 0));
        lemma_descends_compose(s, x, c, id, n, 0);
    }
}

/// The subtrees of two distinct children of one parent key share nothing:
/// an item cannot descend from both.
proof fn lemma_siblings_disjoint(
    s: TodoList,
    p: Option<u128>,
    c1: u128,
    c2: u128,
    a: u128,
)
    requires
        c1 != c2,
        s.contains_id(c1),
        s.contains_id(c2),
        s.item_model(c1).parent_id == p,
        s.item_model(c2).parent_id == p,
        p is Some ==> exists|n: nat| s.grounded(p.unwrap(), n),
    ensures
        !(s.in_subtree(a, c1) && s.in_subtree(a, c2)),
{
    if s.in_subtree(a, c1) && s.in_subtree(a, c2) {
        if a == c1 && a == c2 {
        } else if a == c1 {
            let k = choose|k: nat| s.descends(a, c2, k);
            lemma_child_not_ancestor(s, p, c1, c2, k);
        } else if a == c2 {
            let k = choose|k: nat| s.descends(a, c1, k);
            lemma_child_not_ancestor(s, p, c2, c1, k);
        } else {
            let k1 = choose|k: nat| s.descends(a, c1, k);
            let k2 = choose|k: nat| s.descends(a, c2, k);
            lemma_descends_linear(s, a, c1, c2, k1, k2);
            if exists|k: nat| s.descends(c1, c2, k) {
                let k = choose|k: nat| s.descends(c1, c2, k);
                lemma_child_not_ancestor(s, p, c1, c2, k);
            } else {
                let k = choose|k: nat| s.descends(c2, c1, k);
                lemma_child_not_ancestor(s, p, c2, c1, k);
            }
        }
    }
}

/// One child of a parent key never strictly descends from a sibling.
proof fn lemma_child_not_ancestor(s: TodoList, p: Option<u128>, c1: u128, c2: u128, k: nat)
    requires
        c1 != c2,
        s.contains_id(c1),
        s.contains_id(c2),
        s.item_model(c1).parent_id == p,
        s.item_model(c2).parent_id == p,
        p is Some ==> exists|n: nat| s.grounded(p.unwrap(), n),
    ensures
        !s.descends(c1, c2, k),
{
    if s.descends(c1, c2, k) {
        // the first step of the chain is the shared parent key, which must
        // then be a strict ancestor of itself — impossible once grounded
        let g = p.unwrap();
        let n = choose|n: nat| s.grounded(g, n);
        if g == c2 {
            assert(s.descends(c2, c2, 0));
            lemma_grounded_no_self_descent(s, c2, n, 0);
        } else {
            assert(s.descends(g, c2, (k - 1) as nat));
            assert(s.descends(c2, g, 0));
            lemma_descends_compose(s, g, c2, g, (k - 1) as nat, 0);
            lemma_grounded_no_self_descent(s, g, n, k);
        }
    }
}

/// Everything a node's traversal emits lies inside that node's subtree.
proof fn lemma_node_emits_subtree(s: TodoList, id: u128, depth: nat, fuel: nat)
    requires
        s.wf(),
    ensures
        forall|k: int|
            0 <= k < s.preorder_node(id, depth, fuel).len() ==> s.in_subtree(
                (#[trigger] s.preorder_node(id, depth, fuel)[k]).0,
                id,
            ),
    decreases fuel, 0int,
{
    if fuel > 0 && s.contains_id(id) {
        let ch = s.children_of(Some(id));
        lemma_list_emits_subtrees(s, ch, depth + 1, (fuel - 1) as nat);
        let node = s.preorder_node(id, depth, fuel);
        let tail = s.preorder_list(ch, depth + 1, (fuel - 1) as nat);
        assert forall|k: int| 0 <= k < node.len() implies s.in_subtree(
            (#[trigger] node[k]).0,
            id,
        ) by {
            if k == 0 {
            } else {
                assert(node[k] == tail[k - 1]);
                let j = choose|j: int|
                    0 <= j < ch.len() && s.in_subtree(tail[k - 1].0, ch[j]);
                lemma_children_in_edge(s.edges(), Some(id), j);
                let e = choose|e: int|
                    0 <= e < s.edges().len() && s.edges()[e] == (Some(id), ch[j]);
                assert(s.contains_id(s.edges()[e].1));
                lemma_subtree_extend(s, tail[k - 1].0, ch[j], id);
            }
        }
    }
}

/// Everything a sibling list's traversal emits lies inside one of the
/// siblings' subtrees.
proof fn lemma_list_emits_subtrees(s: TodoList, ids: Seq<u128>, depth: nat, fuel: nat)
    requires
        s.wf(),
    ensures
        forall|k: int|
            0 <= k < s.preorder_list(ids, depth, fuel).len() ==> exists|j: int|
                0 <= j < ids.len() && s.in_subtree(
                    (#[trigger] s.preorder_list(ids, depth, fuel)[k]).0,
                    ids[j],
                ),
    decreases fuel, ids.len(),
{
    if ids.len() > 0 {
        lemma_node_emits_subtree(s, ids[0], depth, fuel);
        lemma_list_emits_subtrees(s, ids.drop_first(), depth, fuel);
        let whole = s.preorder_list(ids, depth, fuel);
        let head = s.preorder_node(ids[0], depth, fuel);
        let rest = s.preorder_list(ids.drop_first(), depth, fuel);
        assert forall|k: int| 0 <= k < whole.len() implies exists|j: int|
            0 <= j < ids.len() && s.in_subtree((#[trigger] whole[k]).0, ids[j]) by {
            if k < head.len() {
                assert(whole[k] == head[k]);
                assert(s.in_subtree(whole[k].0, ids[0]));
            } else {
                assert(whole[k] == rest[k - head.len()]);
                let j = choose|j: int|
                    0 <= j < ids.drop_first().len() && s.in_subtree(
                        rest[k - head.len()].0,
                        ids.drop_first()[j],
                    );
                assert(ids.drop_first()[j] == ids[j + 1]);
                assert(s.in_subtree(whole[k].0, ids[j + 1]));
            }
        }
    }
}

/// A grounded node's traversal lists no id twice.
proof fn lemma_node_no_dup(s: TodoList, id: u128, depth: nat, fuel: nat)
    requires
        s.wf(),
        s.contains_id(id),
        exists|n: nat| s.grounded(id, n),
    ensures
        forall|k1: int, k2: int|
            0 <= k1 < k2 < s.preorder_node(id, depth, fuel).len() ==> s.preorder_node(
                id,
                depth,
                fuel,
            )[k1].0 != s.preorder_node(id, depth, fuel)[k2].0,
    decreases fuel, 0int,
{
    if fuel > 0 {
        let gn = choose|n: nat| s.grounded(id, n);
        let ch = s.children_of(Some(id));
        lemma_children_in_nodup(s.edges(), Some(id));
        assert forall|j: int| 0 <= j < ch.len() implies s.contains_id(#[trigger] ch[j])
            && s.item_model(ch[j]).parent_id == Some(id) && (exists|n: nat|
            s.grounded(ch[j], n)) by {
            lemma_children_in_edge(s.edges(), Some(id), j);
            let e = choose|e: int| 0 <= e < s.edges().len() && s.edges()[e] == (Some(id), ch[j]);
            assert(s.contains_id(s.edges()[e].1));
            assert(s.grounded(ch[j], gn + 1));
        }
        lemma_list_no_dup(s, ch, depth + 1, (fuel - 1) as nat, Some(id));
        lemma_list_emits_subtrees(s, ch, depth + 1, (fuel - 1) as nat);
        let node = s.preorder_node(id, depth, fuel);
        let tail = s.preorder_list(ch, depth + 1, (fuel - 1) as nat);
        assert forall|k1: int, k2: int|
            0 <= k1 < k2 < node.len() implies node[k1].0 != node[k2].0 by {
            if k1 == 0 {
                assert(node[k2] == tail[k2 - 1]);
                if node[k2].0 == id {
                    let j = choose|j: int|
                        0 <= j < ch.len() && s.in_subtree(tail[k2 - 1].0, ch[j]);
                    // the node itself cannot lie in a child's subtree
                    assert(s.in_subtree(id, ch[j]));
                    if id == ch[j] {
                        assert(s.descends(id, id, 0));
                        lemma_grounded_no_self_descent(s, id, gn, 0);
                    } else {
                        let k = choose|k: nat| s.descends(id, ch[j], k);
                        assert(s.descends(ch[j], id, 0));
                        lemma_descends_compose(s, id, ch[j], id, k, 0);
                        lemma_grounded_no_self_descent(s, id, gn, (k + 0 + 1) as nat);
                    }
                }
            } else {
                assert(node[k1] == tail[k1 - 1] && node[k2] == tail[k2 - 1]);
            }
        }
    }
}

/// A grounded sibling list's traversal lists no id twice: each sibling's
/// subtree is internally duplicate-free, and distinct siblings' subtrees
/// share nothing.
proof fn lemma_list_no_dup(
    s: TodoList,
    ids: Seq<u128>,
    depth: nat,
    fuel: nat,
    p: Option<u128>,
)
    requires
        s.wf(),
        ids.no_duplicates(),
        forall|j: int|
            0 <= j < ids.len() ==> s.contains_id(#[trigger] ids[j]) && s.item_model(
                ids[j],
            ).parent_id == p && (exists|n: nat| s.grounded(ids[j], n)),
        p is Some ==> s.contains_id(p.unwrap()) && (exists|n: nat| s.grounded(p.unwrap(), n)),
    ensures
        forall|k1: int, k2: int|
            0 <= k1 < k2 < s.preorder_list(ids, depth, fuel).len() ==> s.preorder_list(
                ids,
                depth,
                fuel,
            )[k1].0 != s.preorder_list(ids, depth, fuel)[k2].0,
    decreases fuel, ids.len(),
{
    if ids.len() > 0 {
        lemma_node_no_dup(s, ids[0], depth, fuel);
        assert(forall|j: int|
            0 <= j < ids.drop_first().len() ==> #[trigger] ids.drop_first()[j] == ids[j + 1]);
        lemma_list_no_dup(s, ids.drop_first(), depth, fuel, p);
        lemma_node_emits_subtree(s, ids[0], depth, fuel);
        lemma_list_emits_subtrees(s, ids.drop_first(), depth, fuel);
        let whole = s.preorder_list(ids, depth, fuel);
        let head = s.preorder_node(ids[0], depth, fuel);
        let rest = s.preorder_list(ids.drop_first(), depth, fuel);
        assert forall|k1: int, k2: int|
            0 <= k1 < k2 < whole.len() implies whole[k1].0 != whole[k2].0 by {
            if k2 < head.len() {
                assert(whole[k1] == head[k1] && whole[k2] == head[k2]);
            } else if k1 >= head.len() {
                assert(whole[k1] == rest[k1 - head.len()] && whole[k2] == rest[k2 - head.len()]);
            } else {
                assert(whole[k1] == head[k1] && whole[k2] == rest[k2 - head.len()]);
                if whole[k1].0 == whole[k2].0 {
                    assert(s.in_subtree(head[k1].0, ids[0]));
                    let j = choose|j: int|
                        0 <= j < ids.drop_first().len() && s.in_subtree(
                            rest[k2 - head.len()].0,
                            ids.drop_first()[j],
                        );
                    assert(ids.drop_first()[j] == ids[j + 1]);
                    assert(ids[0] != ids[j + 1]);
                    lemma_siblings_disjoint(s, p, ids[0], ids[j + 1], whole[k1].0);
                }
            }
        }
    }
}

/// Does the traversal output mention the id `x` at all?
pub open spec fn emits(po: Seq<(u128, nat)>, x: u128) -> bool {
    exists|k: int| 0 <= k < po.len() && (#[trigger] po[k]).0 == x
}

/// A grounding chain laid out in full: from `x` along live parent links
/// up to a root item.
spec fn gchain_ok(s: TodoList, c: Seq<u128>, x: u128) -> bool {
    &&& c.len() > 0
    &&& c[0] == x
    &&& forall|t: int| 0 <= t < c.len() ==> s.contains_id(#[trigger] c[t])
    &&& forall|t: int|
        0 <= t < c.len() - 1 ==> s.item_model(#[trigger] c[t]).parent_id == Some(c[t + 1])
    &&& s.item_model(c.last()).parent_id is None
}

/// Every descendant of a grounded item is grounded: the descent chain
/// and the grounding chain splice.
proof fn lemma_descendant_grounded(s: TodoList, x: u128, r: u128, m: nat, n: nat)
    requires
        s.descends(x, r, m),
        s.grounded(r, n),
    ensures
        s.grounded(x, (n + m + 1) as nat),
    decreases m,
{
    let p = s.item_model(x).parent_id.unwrap();
    if p == r {
        lemma_grounded_mono(s, r, n, (n + m) as nat);
    } else {
        lemma_descendant_grounded(s, p, r, (m - 1) as nat, n);
    }
}

/// A grounded item gives rise to a grounding chain.
proof fn gchain_build(s: TodoList, x: u128, n: nat) -> (c: Seq<u128>)
    requires
        s.grounded(x, n),
    ensures
        gchain_ok(s, c, x),
    decreases n,
{
    match s.item_model(x).parent_id {
        None => {
            let c = seq![x];
            assert(c.last() == x);
            c
        },
        Some(p) => {
            let rest = gchain_build(s, p, (n - 1) as nat);
            let c = seq![x] + rest;
            assert(c[0] == x);
            assert(forall|t: int| 0 < t < c.len() ==> c[t] == rest[t - 1]);
            assert(rest[0] == p);
            assert(c.last() == rest.last());
            assert forall|t: int|
                0 <= t < c.len() - 1 implies s.item_model(#[trigger] c[t]).parent_id == Some(
                c[t + 1],
            ) by {
                if t > 0 {
                    assert(c[t] == rest[t - 1] && c[t + 1] == rest[t]);
                }
            }
            c
        },
    }
}

/// A grounding chain never revisits a node: the walk is deterministic and
/// its last node has no parent to continue from.
proof fn gchain_distinct_at(s: TodoList, c: Seq<u128>, x: u128, i: int, j: int)
    requires
        gchain_ok(s, c, x),
        0 <= i < j < c.len(),
    ensures
        c[i] != c[j],
    decreases c.len() - j,
{
    if c[i] == c[j] {
        if j == c.len() - 1 {
            assert(s.item_model(c[i]).parent_id == Some(c[i + 1]));
            assert(c.last() == c[i]);
        } else {
            assert(s.item_model(c[i]).parent_id == Some(c[i + 1]));
            assert(s.item_model(c[j]).parent_id == Some(c[j + 1]));
            assert(c[i + 1] == c[j + 1]);
            gchain_distinct_at(s, c, x, i + 1, j + 1);
        }
    }
}

/// An id a node's traversal mentions is still mentioned with any larger
/// fuel budget, at any depth.
proof fn lemma_node_emits_mono(
    s: TodoList,
    y: u128,
    d1: nat,
    f1: nat,
    d2: nat,
    f2: nat,
    x: u128,
)
    requires
        emits(s.preorder_node(y, d1, f1), x),
        f1 <= f2,
    ensures
        emits(s.preorder_node(y, d2, f2), x),
    decreases f1, 0int,
{
    let n1 = s.preorder_node(y, d1, f1);
    let n2 = s.preorder_node(y, d2, f2);
    let k = choose|k: int| 0 <= k < n1.len() && n1[k].0 == x;
    assert(f1 > 0 && s.contains_id(y));
    let ch = s.children_of(Some(y));
    if k == 0 {
        assert(n2[0].0 == x);
    } else {
        let t1 = s.preorder_list(ch, d1 + 1, (f1 - 1) as nat);
        let t2 = s.preorder_list(ch, d2 + 1, (f2 - 1) as nat);
        assert(n1[k] == t1[k - 1]);
        assert(emits(t1, x));
        lemma_list_emits_mono(s, ch, d1 + 1, (f1 - 1) as nat, d2 + 1, (f2 - 1) as nat, x);
        let w = choose|w: int| 0 <= w < t2.len() && t2[w].0 == x;
        assert(n2[w + 1].0 == x);
    }
}

/// An id a sibling list's traversal mentions is still mentioned with any
/// larger fuel budget, at any depth.
proof fn lemma_list_emits_mono(
    s: TodoList,
    ids: Seq<u128>,
    d1: nat,
    f1: nat,
    d2: nat,
    f2: nat,
    x: u128,
)
    requires
        emits(s.preorder_list(ids, d1, f1), x),
        f1 <= f2,
    ensures
        emits(s.preorder_list(ids, d2, f2), x),
    decreases f1, ids.len(),
{
    let l1 = s.preorder_list(ids, d1, f1);
    let k = choose|k: int| 0 <= k < l1.len() && l1[k].0 == x;
    assert(ids.len() > 0);
    let h1 = s.preorder_node(ids[0], d1, f1);
    let r1 = s.preorder_list(ids.drop_first(), d1, f1);
    let h2 = s.preorder_node(ids[0], d2, f2);
    let r2 = s.preorder_list(ids.drop_first(), d2, f2);
    if k < h1.len() {
        assert(h1[k].0 == x);
        assert(emits(h1, x));
        lemma_node_emits_mono(s, ids[0], d1, f1, d2, f2, x);
        let w = choose|w: int| 0 <= w < h2.len() && h2[w].0 == x;
        assert(s.preorder_list(ids, d2, f2)[w].0 == x);
    } else {
        assert(l1[k] == r1[k - h1.len()]);
        assert(emits(r1, x));
        lemma_list_emits_mono(s, ids.drop_first(), d1, f1, d2, f2, x);
        let w = choose|w: int| 0 <= w < r2.len() && r2[w].0 == x;
        assert(s.preorder_list(ids, d2, f2)[h2.len() + w].0 == x);
    }
}

/// Whatever one sibling's subtree mentions, the whole sibling list
/// mentions.
proof fn lemma_list_contains_node(
    s: TodoList,
    ids: Seq<u128>,
    d: nat,
    f: nat,
    y: u128,
    x: u128,
)
    requires
        ids.contains(y),
        emits(s.preorder_node(y, d, f), x),
    ensures
        emits(s.preorder_list(ids, d, f), x),
    decreases ids.len(),
{
    assert(ids.len() > 0);
    let h = s.preorder_node(ids[0], d, f);
    let r = s.preorder_list(ids.drop_first(), d, f);
    if ids[0] == y {
        let k = choose|k: int|
            0 <= k < s.preorder_node(y, d, f).len() && s.preorder_node(y, d, f)[k].0 == x;
        assert(s.preorder_list(ids, d, f)[k].0 == x);
    } else {
        let w = choose|w: int| 0 <= w < ids.len() && ids[w] == y;
        assert(ids.drop_first()[w - 1] == y);
        assert(ids.drop_first().contains(y));
        lemma_list_contains_node(s, ids.drop_first(), d, f, y, x);
        let k = choose|k: int| 0 <= k < r.len() && r[k].0 == x;
        assert(s.preorder_list(ids, d, f)[h.len() + k].0 == x);
    }
}

/// Walking a grounding chain upward, each node's traversal keeps
/// mentioning the chain's start, one fuel unit deeper per level.
proof fn lemma_chain_emits(s: TodoList, c: Seq<u128>, x: u128, t: int)
    requires
        s.wf(),
        gchain_ok(s, c, x),
        0 <= t < c.len(),
    ensures
        emits(s.preorder_node(c[t], 0, (t + 1) as nat), x),
    decreases t,
{
    if t == 0 {
        assert(s.preorder_node(c[0], 0, 1)[0].0 == x);
    } else {
        lemma_chain_emits(s, c, x, t - 1);
        lemma_node_emits_mono(s, c[t - 1], 0, t as nat, 1, t as nat, x);
        // the previous node is one of this node's children
        assert(s.item_model(c[t - 1]).parent_id == Some(c[t]));
        let i = s.idx_of(c[t - 1]);
        assert(s.items_seq()[i]@.id == c[t - 1]);
        assert(has_child(s.edges(), c[t - 1]));
        let e = choose|e: int| 0 <= e < s.edges().len() && s.edges()[e].1 == c[t - 1];
        assert(s.edges()[e].0 == Some(c[t]));
        lemma_children_in_complete(s.edges(), e);
        let ch = s.children_of(Some(c[t]));
        assert(ch.contains(c[t - 1]));
        lemma_list_contains_node(s, ch, 1, t as nat, c[t - 1], x);
        let sub = s.preorder_list(ch, 1, t as nat);
        let k = choose|k: int| 0 <= k < sub.len() && (#[trigger] sub[k]).0 == x;
        assert(s.preorder_node(c[t], 0, (t + 1) as nat)[k + 1].0 == x);
    }
}

/// Out of fuel, a traversal emits nothing.
proof fn lemma_preorder_list_no_fuel(s: TodoList, ids: Seq<u128>, depth: nat)
    ensures
        s.preorder_list(ids, depth, 0) == Seq::<(u128, nat)>::empty(),
    decreases ids.len(),
{
    if ids.len() > 0 {
        lemma_preorder_list_no_fuel(s, ids.drop_first(), depth);
        assert(s.preorder_node(ids[0], depth, 0) == Seq::<(u128, nat)>::empty());
        assert(s.preorder_list(ids, depth, 0) == s.preorder_node(ids[0], depth, 0)
            + s.preorder_list(ids.drop_first(), depth, 0));
        assert(s.preorder_list(ids, depth, 0) =~= Seq::<(u128, nat)>::empty());
    }
}

/// A sibling appended at the end contributes its subtree at the end.
proof fn lemma_preorder_list_push(s: TodoList, ids: Seq<u128>, x: u128, depth: nat, fuel: nat)
    ensures
        s.preorder_list(ids.push(x), depth, fuel) == s.preorder_list(ids, depth, fuel)
            + s.preorder_node(x, depth, fuel),
    decreases ids.len(),
{
    let px = ids.push(x);
    assert(px.len() == ids.len() + 1);
    assert(s.preorder_list(px, depth, fuel) == s.preorder_node(px[0], depth, fuel)
        + s.preorder_list(px.drop_first(), depth, fuel));
    if ids.len() == 0 {
        assert(px[0] == x);
        assert(px.drop_first() =~= Seq::<u128>::empty());
        assert(s.preorder_list(px.drop_first(), depth, fuel) == Seq::<(u128, nat)>::empty());
        assert(s.preorder_list(ids, depth, fuel) == Seq::<(u128, nat)>::empty());
        assert(s.preorder_list(px, depth, fuel) =~= s.preorder_list(ids, depth, fuel)
            + s.preorder_node(x, depth, fuel));
    } else {
        assert(px[0] == ids[0]);
        assert(px.drop_first() =~= ids.drop_first().push(x));
        lemma_preorder_list_push(s, ids.drop_first(), x, depth, fuel);
        assert(s.preorder_list(ids, depth, fuel) == s.preorder_node(ids[0], depth, fuel)
            + s.preorder_list(ids.drop_first(), depth, fuel));
        assert(s.preorder_list(px, depth, fuel) =~= s.preorder_list(ids, depth, fuel)
            + s.preorder_node(x, depth, fuel));
    }
}

/// Two renderings laid end to end render the two traversals laid end to
/// end.
proof fn lemma_renders_concat(
    s: TodoList,
    a: Seq<(&TodoItem, usize)>,
    pa: Seq<(u128, nat)>,
    b: Seq<(&TodoItem, usize)>,
    pb: Seq<(u128, nat)>,
)
    requires
        s.renders(a, pa),
        s.renders(b, pb),
    ensures
        s.renders(a + b, pa + pb),
{
    assert forall|k: int| 0 <= k < (a + b).len() implies s.contains_id(((pa + pb)[k]).0) && *(a
        + b)[k].0 == s.items_seq()[s.idx_of((pa + pb)[k].0)] && (a + b)[k].1 as nat == (pa
        + pb)[k].1 by {
        if k < a.len() {
            assert((a + b)[k] == a[k] && (pa + pb)[k] == pa[k]);
        } else {
            assert((a + b)[k] == b[k - a.len()] && (pa + pb)[k] == pb[k - a.len()]);
        }
    }
}

/// The edges of one bucket, element by element.
proof fn lemma_bucket_edges_index(p: Option<u128>, order: Seq<u128>)
    ensures
        bucket_edges(p, order).len() == order.len(),
        forall|k: int| 0 <= k < order.len() ==> bucket_edges(p, order)[k] == (p, order[k]),
    decreases order.len(),
{
    if order.len() > 0 {
        lemma_bucket_edges_index(p, order.drop_last());
    }
}

/// A set that contains the root and is closed under live children covers
/// the whole subtree.
proof fn lemma_closed_covers(pre: TodoList, sub: Seq<u128>, rid: u128, x: u128, n: nat)
    requires
        sub.contains(rid),
        forall|v: u128, c: u128|
            sub.contains(v) && pre.contains_id(c) && pre.item_model(c).parent_id == Some(v)
                ==> sub.contains(c),
        pre.descends(x, rid, n),
    ensures
        sub.contains(x),
    decreases n,
{
    match pre.item_model(x).parent_id {
        Some(p) => {
            if p == rid {
            } else {
                lemma_closed_covers(pre, sub, rid, p, (n - 1) as nat);
            }
        },
        None => {},
    }
}

/// Dropping the items of an id set keeps every other item, its order, and
/// id-uniqueness, and leaves nothing of the dropped set behind.
proof fn lemma_items_outside_props(s: Seq<TodoItem>, r: Set<u128>)
    ensures
        forall|k: int|
            0 <= k < items_outside(s, r).len() ==> !r.contains(
                (#[trigger] items_outside(s, r)[k])@.id,
            ),
        forall|k: int|
            0 <= k < items_outside(s, r).len() ==> s.contains(#[trigger] items_outside(s, r)[k]),
        forall|c: u128| seq_has_id(items_outside(s, r), c) ==> seq_has_id(s, c),
        (forall|i: int, j: int| 0 <= i < j < s.len() ==> s[i]@.id != s[j]@.id) ==> (forall|
            i: int,
            j: int,
        |
            0 <= i < j < items_outside(s, r).len() ==> items_outside(s, r)[i]@.id != items_outside(
                s,
                r,
            )[j]@.id),
        forall|i: int|
            0 <= i < s.len() && !r.contains((#[trigger] s[i])@.id) ==> items_outside(
                s,
                r,
            ).contains(s[i]),
    decreases s.len(),
{
    if s.len() > 0 {
        let dl = s.drop_last();
        lemma_items_outside_props(dl, r);
        let io = items_outside(s, r);
        let iodl = items_outside(dl, r);
        assert forall|k: int| 0 <= k < io.len() implies s.contains(#[trigger] io[k]) by {
            if k < iodl.len() {
                assert(dl.contains(iodl[k]));
                let e = choose|e: int| 0 <= e < dl.len() && dl[e] == iodl[k];
                assert(s[e] == io[k]);
            } else {
                assert(s[s.len() - 1] == io[k]);
            }
        }
        assert forall|c: u128| seq_has_id(io, c) implies seq_has_id(s, c) by {
            let k = choose|k: int| 0 <= k < io.len() && io[k]@.id == c;
            let e = choose|e: int| 0 <= e < s.len() && s[e] == io[k];
            assert(s[e]@.id == c);
        }
        if forall|i: int, j: int| 0 <= i < j < s.len() ==> s[i]@.id != s[j]@.id {
            assert(forall|i: int, j: int| 0 <= i < j < dl.len() ==> dl[i]@.id != dl[j]@.id);
            if !r.contains(s.last()@.id) {
                assert forall|i: int, j: int|
                    0 <= i < j < io.len() implies io[i]@.id != io[j]@.id by {
                    if j == io.len() - 1 {
                        assert(io[j] == s.last());
                        if io[i]@.id == s.last()@.id {
                            assert(seq_has_id(iodl, io[i]@.id));
                            assert(seq_has_id(dl, io[i]@.id));
                            let e = choose|e: int| 0 <= e < dl.len() && dl[e]@.id == io[i]@.id;
                            assert(s[e]@.id == s[s.len() - 1]@.id);
                            assert(false);
                        }
                    }
                }
            }
        }
        assert forall|i: int|
            0 <= i < s.len() && !r.contains((#[trigger] s[i])@.id) implies io.contains(s[i]) by {
            if i < s.len() - 1 {
                assert(dl[i] == s[i]);
                assert(iodl.contains(dl[i]));
                let w = choose|w: int| 0 <= w < iodl.len() && iodl[w] == s[i];
                assert(io[w] == s[i]);
            } else {
                assert(io[io.len() - 1] == s[i]);
            }
        }
    }
}

/// Dropping the edges of an id set keeps every other edge, its order, and
/// child-uniqueness, and leaves no edge of the dropped set behind.
proof fn lemma_edges_outside_props(s: Seq<Edge>, r: Set<u128>)
    ensures
        forall|k: int|
            0 <= k < edges_outside(s, r).len() ==> !r.contains(
                (#[trigger] edges_outside(s, r)[k]).1,
            ),
        forall|k: int|
            0 <= k < edges_outside(s, r).len() ==> s.contains(#[trigger] edges_outside(s, r)[k]),
        forall|c: u128| has_child(edges_outside(s, r), c) ==> has_child(s, c),
        child_unique(s) ==> child_unique(edges_outside(s, r)),
        forall|k: int|
            0 <= k < s.len() && !r.contains((#[trigger] s[k]).1) ==> edges_outside(
                s,
                r,
            ).contains(s[k]),
    decreases s.len(),
{
    if s.len() > 0 {
        let dl = s.drop_last();
        lemma_edges_outside_props(dl, r);
        let eo = edges_outside(s, r);
        let eodl = edges_outside(dl, r);
        assert forall|k: int| 0 <= k < eo.len() implies s.contains(#[trigger] eo[k]) by {
            if k < eodl.len() {
                assert(dl.contains(eodl[k]));
                let e = choose|e: int| 0 <= e < dl.len() && dl[e] == eodl[k];
                assert(s[e] == eo[k]);
            } else {
                assert(s[s.len() - 1] == eo[k]);
            }
        }
        assert forall|c: u128| has_child(eo, c) implies has_child(s, c) by {
            let k = choose|k: int| 0 <= k < eo.len() && eo[k].1 == c;
            let e = choose|e: int| 0 <= e < s.len() && s[e] == eo[k];
            assert(s[e].1 == c);
        }
        if child_unique(s) {
            assert(child_unique(dl));
            if !r.contains(s.last().1) {
                assert forall|i: int, j: int|
                    0 <= i < j < eo.len() implies eo[i].1 != eo[j].1 by {
                    if j == eo.len() - 1 {
                        assert(eo[j] == s.last());
                        if eo[i].1 == s.last().1 {
                            assert(has_child(eodl, eo[i].1));
                            assert(has_child(dl, eo[i].1));
                            let e = choose|e: int| 0 <= e < dl.len() && dl[e].1 == eo[i].1;
                            assert(s[e].1 == s[s.len() - 1].1);
                            assert(false);
                        }
                    }
                }
            }
        }
        assert forall|k: int|
            0 <= k < s.len() && !r.contains((#[trigger] s[k]).1) implies eo.contains(s[k]) by {
            if k < s.len() - 1 {
                assert(dl[k] == s[k]);
                assert(eodl.contains(dl[k]));
                let w = choose|w: int| 0 <= w < eodl.len() && eodl[w] == s[k];
                assert(eo[w] == s[k]);
            } else {
                assert(eo[eo.len() - 1] == s[k]);
            }
        }
    }
}

/// How many items of `s` carry an id of `r`.
pub open spec fn num_in(s: Seq<TodoItem>, r: Set<u128>) -> nat
    decreases s.len(),
{
    if s.len() == 0 {
        0
    } else {
        num_in(s.drop_last(), r) + if r.contains(s.last()@.id) {
            1nat
        } else {
            0nat
        }
    }
}

/// Dropping an id set loses exactly the items counted by `num_in`.
proof fn lemma_items_outside_len(s: Seq<TodoItem>, r: Set<u128>)
    ensures
        items_outside(s, r).len() + num_in(s, r) == s.len(),
    decreases s.len(),
{
    if s.len() > 0 {
        lemma_items_outside_len(s.drop_last(), r);
    }
}

/// Members of `r` that are not ids of `s` do not change the count.
proof fn lemma_num_in_remove_absent(s: Seq<TodoItem>, r: Set<u128>, x: u128)
    requires
        forall|i: int| 0 <= i < s.len() ==> (#[trigger] s[i])@.id != x,
    ensures
        num_in(s, r.remove(x)) == num_in(s, r),
    decreases s.len(),
{
    if s.len() > 0 {
        assert(s.last()@.id != x);
        lemma_num_in_remove_absent(s.drop_last(), r, x);
    }
}

/// With unique ids, the count of items whose id lies in `r` is the size
/// of `r` itself, whenever every member of `r` is some item's id.
proof fn lemma_num_in_is_card(s: Seq<TodoItem>, r: Set<u128>)
    requires
        forall|i: int, j: int| 0 <= i < j < s.len() ==> s[i]@.id != s[j]@.id,
        r.finite(),
        forall|x: u128| r.contains(x) ==> seq_has_id(s, x),
    ensures
        num_in(s, r) == r.len(),
    decreases s.len(),
{
    if s.len() == 0 {
        if r.len() > 0 {
            let x = r.choose();
            assert(r.contains(x));
            assert(seq_has_id(s, x));
        }
    } else {
        let dl = s.drop_last();
        let lid = s.last()@.id;
        if r.contains(lid) {
            let r2 = r.remove(lid);
            assert forall|x: u128| r2.contains(x) implies seq_has_id(dl, x) by {
                assert(seq_has_id(s, x));
                let i = choose|i: int| 0 <= i < s.len() && s[i]@.id == x;
                assert(i < s.len() - 1);
                assert(dl[i]@.id == x);
            }
            lemma_num_in_is_card(dl, r2);
            assert forall|i: int| 0 <= i < dl.len() implies (#[trigger] dl[i])@.id != lid by {
                assert(s[i]@.id != s[s.len() - 1]@.id);
            }
            lemma_num_in_remove_absent(dl, r, lid);
        } else {
            assert forall|x: u128| r.contains(x) implies seq_has_id(dl, x) by {
                assert(seq_has_id(s, x));
                let i = choose|i: int| 0 <= i < s.len() && s[i]@.id == x;
                assert(i < s.len() - 1);
                assert(dl[i]@.id == x);
            }
            lemma_num_in_is_card(dl, r);
        }
    }
}

/// After dropping an id set from both halves of the structure, the list is
/// well-formed again, the dropped ids are gone, and every other item is
/// untouched.
proof fn lemma_remove_outside_wf(pre: TodoList, post: TodoList, r: Set<u128>)
    requires
        pre.wf(),
        post.items_seq() == items_outside(pre.items_seq(), r),
        post.edges() == edges_outside(pre.edges(), r),
    ensures
        post.wf(),
        forall|c: u128| r.contains(c) ==> !post.contains_id(c),
        forall|c: u128|
            pre.contains_id(c) && !r.contains(c) ==> post.contains_id(c) && post.item_model(c)
                == pre.item_model(c),
        forall|c: u128| post.contains_id(c) ==> pre.contains_id(c),
{
    lemma_items_outside_props(pre.items_seq(), r);
    lemma_edges_outside_props(pre.edges(), r);
    let io = items_outside(pre.items_seq(), r);
    let eo = edges_outside(pre.edges(), r);
    assert forall|c: u128| r.contains(c) implies !post.contains_id(c) by {
        if post.contains_id(c) {
            let k = choose|k: int| 0 <= k < io.len() && io[k]@.id == c;
            assert(!r.contains(io[k]@.id));
        }
    }
    assert(post.items_unique());
    assert forall|c: u128|
        pre.contains_id(c) && !r.contains(c) implies post.contains_id(c) && post.item_model(c)
        == pre.item_model(c) by {
        let i = pre.idx_of(c);
        assert(pre.items_seq()[i]@.id == c);
        assert(io.contains(pre.items_seq()[i]));
        let k = choose|k: int| 0 <= k < io.len() && io[k] == pre.items_seq()[i];
        assert(post.items_seq()[k]@.id == c);
        let q = post.idx_of(c);
        assert(io[q]@.id == c);
        assert(q == k);
    }
    assert forall|c: u128| post.contains_id(c) implies pre.contains_id(c) by {
        let k = choose|k: int| 0 <= k < io.len() && io[k]@.id == c;
        assert(seq_has_id(io, c));
        assert(seq_has_id(pre.items_seq(), c));
    }
    assert forall|j: int| 0 <= j < post.items_seq().len() implies (
    #[trigger] post.items_seq()[j]).wf() by {
        let e = choose|e: int| 0 <= e < pre.items_seq().len() && pre.items_seq()[e] == io[j];
        assert(pre.items_seq()[e].wf());
    }
    assert(child_unique(post.edges()));
    assert forall|k: int| 0 <= k < post.edges().len() implies post.contains_id(
        #[trigger] post.edges()[k].1,
    ) && post.item_model(post.edges()[k].1).parent_id == post.edges()[k].0 by {
        assert(pre.edges().contains(eo[k]));
        let e = choose|e: int| 0 <= e < pre.edges().len() && pre.edges()[e] == eo[k];
        assert(pre.contains_id(pre.edges()[e].1));
        assert(!r.contains(eo[k].1));
    }
    assert forall|j: int| 0 <= j < post.items_seq().len() implies has_child(
        post.edges(),
        #[trigger] post.items_seq()[j]@.id,
    ) by {
        let c = post.items_seq()[j]@.id;
        assert(!r.contains(io[j]@.id));
        assert(seq_has_id(pre.items_seq(), c));
        let i = choose|i: int| 0 <= i < pre.items_seq().len() && pre.items_seq()[i]@.id == c;
        assert(has_child(pre.edges(), pre.items_seq()[i]@.id));
        let e = choose|e: int| 0 <= e < pre.edges().len() && pre.edges()[e].1 == c;
        assert(eo.contains(pre.edges()[e]));
        let w = choose|w: int| 0 <= w < eo.len() && eo[w] == pre.edges()[e];
        assert(post.edges()[w].1 == c);
    }
}

/// A walk that escapes within `n` steps also escapes within any larger
/// step budget.
proof fn lemma_escapes_mono(s: TodoList, b: u128, a: u128, n: nat, m: nat)
    requires
        s.escapes(b, a, n),
        n <= m,
    ensures
        s.escapes(b, a, m),
    decreases n,
{
    if s.contains_id(b) {
        match s.item_model(b).parent_id {
            None => {},
            Some(p) => {
                lemma_escapes_mono(s, p, a, (n - 1) as nat, (m - 1) as nat);
            },
        }
    }
}

/// The live nodes that an escaping walk from `b` visits, in order: each
/// one's parent is the next, none of those parents is `a`, and the last
/// one's parent is absent or dangling.
spec fn chain_ok(s: TodoList, c: Seq<u128>, b: u128, a: u128) -> bool {
    &&& (c.len() == 0 ==> !s.contains_id(b))
    &&& (c.len() > 0 ==> c[0] == b)
    &&& (forall|t: int| 0 <= t < c.len() ==> s.contains_id(#[trigger] c[t]))
    &&& (forall|t: int|
        0 <= t < c.len() - 1 ==> s.item_model(#[trigger] c[t]).parent_id == Some(c[t + 1]) && c[t
            + 1] != a)
    &&& (c.len() > 0 ==> match s.item_model(c.last()).parent_id {
        None => true,
        Some(q) => q != a && !s.contains_id(q),
    })
}

/// An escaping walk gives rise to a chain of visited live nodes.
proof fn escape_chain(s: TodoList, b: u128, a: u128, n: nat) -> (c: Seq<u128>)
    requires
        s.escapes(b, a, n),
    ensures
        chain_ok(s, c, b, a),
    decreases n,
{
    if !s.contains_id(b) {
        Seq::<u128>::empty()
    } else {
        match s.item_model(b).parent_id {
            None => {
                let c = seq![b];
                assert(c.last() == b);
                c
            },
            Some(p) => {
                let rest = escape_chain(s, p, a, (n - 1) as nat);
                let c = seq![b] + rest;
                assert(c[0] == b);
                assert(forall|t: int| 0 < t < c.len() ==> c[t] == rest[t - 1]);
                if rest.len() == 0 {
                    assert(c.last() == b);
                    assert(!s.contains_id(p));
                } else {
                    assert(rest[0] == p);
                    assert(c.last() == rest.last());
                    assert forall|t: int|
                        0 <= t < c.len() - 1 implies s.item_model(
                        #[trigger] c[t],
                    ).parent_id == Some(c[t + 1]) && c[t + 1] != a by {
                        if t == 0 {
                            assert(c[1] == rest[0]);
                        } else {
                            assert(c[t] == rest[t - 1] && c[t + 1] == rest[t]);
                        }
                    }
                }
                c
            },
        }
    }
}

/// Two nodes of a chain at different positions differ: the parent map is
/// a function, so a repeated node would keep the walk from ever reaching
/// the chain's end.
proof fn chain_distinct_at(s: TodoList, c: Seq<u128>, b: u128, a: u128, i: int, j: int)
    requires
        chain_ok(s, c, b, a),
        0 <= i < j < c.len(),
    ensures
        c[i] != c[j],
    decreases c.len() - j,
{
    if c[i] == c[j] {
        if j == c.len() - 1 {
            assert(s.item_model(c[i]).parent_id == Some(c[i + 1]));
            assert(s.contains_id(c[i + 1]));
            assert(c.last() == c[i]);
        } else {
            assert(s.item_model(c[i]).parent_id == Some(c[i + 1]));
            assert(s.item_model(c[j]).parent_id == Some(c[j + 1]));
            assert(c[i + 1] == c[j + 1]);
            chain_distinct_at(s, c, b, a, i + 1, j + 1);
        }
    }
}

/// A chain visits no node twice.
proof fn chain_no_dup(s: TodoList, c: Seq<u128>, b: u128, a: u128)
    requires
        chain_ok(s, c, b, a),
    ensures
        c.no_duplicates(),
{
    assert forall|i: int, j: int|
        0 <= i < c.len() && 0 <= j < c.len() && i != j implies c[i] != c[j] by {
        if i < j {
            chain_distinct_at(s, c, b, a, i, j);
        } else {
            chain_distinct_at(s, c, b, a, j, i);
        }
    }
}

/// A chain of length `k` witnesses an escape within `k` steps.
proof fn chain_escapes(s: TodoList, c: Seq<u128>, b: u128, a: u128)
    requires
        chain_ok(s, c, b, a),
    ensures
        s.escapes(b, a, c.len() as nat),
    decreases c.len(),
{
    if c.len() == 0 {
    } else if c.len() == 1 {
        assert(c.last() == b);
        match s.item_model(b).parent_id {
            None => {},
            Some(q) => {
                assert(q != a && !s.contains_id(q));
                assert(s.escapes(q, a, 0));
            },
        }
    } else {
        let c2 = c.drop_first();
        assert(forall|t: int| 0 <= t < c2.len() ==> c2[t] == c[t + 1]);
        assert(c2.last() == c.last());
        assert forall|t: int|
            0 <= t < c2.len() - 1 implies s.item_model(#[trigger] c2[t]).parent_id == Some(
            c2[t + 1],
        ) && c2[t + 1] != a by {
            assert(c2[t] == c[t + 1] && c2[t + 1] == c[t + 2]);
        }
        chain_escapes(s, c2, c[1], a);
        assert(s.item_model(b).parent_id == Some(c[1]) && c[1] != a);
    }
}

/// Distinct live ids are no more numerous than the items.
proof fn lemma_distinct_live_bound(s: TodoList, c: Seq<u128>)
    requires
        s.items_unique(),
        c.no_duplicates(),
        forall|t: int| 0 <= t < c.len() ==> s.contains_id(#[trigger] c[t]),
    ensures
        c.len() <= s.items_seq().len(),
{
    broadcast use vstd::seq_lib::seq_to_set_is_finite;

    c.unique_seq_to_set();
    let ids = s.items_seq().map_values(|it: TodoItem| it@.id);
    ids.lemma_cardinality_of_set();
    assert forall|x: u128| c.to_set().contains(x) implies ids.to_set().contains(x) by {
        assert(c.contains(x));
        assert(s.contains_id(x));
        let i = choose|i: int|
            0 <= i < s.items_seq().len() && s.items_seq()[i]@.id == x;
        assert(ids[i] == x);
        assert(ids.contains(x));
    }
    lemma_len_subset(c.to_set(), ids.to_set());
}

/// A walk that escapes at all escapes within as many steps as there are
/// items: an escaping walk visits distinct live nodes only.
proof fn lemma_escape_bound(s: TodoList, b: u128, a: u128, n: nat)
    requires
        s.items_unique(),
        s.escapes(b, a, n),
    ensures
        s.escapes(b, a, s.items_seq().len() as nat),
{
    let c = escape_chain(s, b, a, n);
    chain_no_dup(s, c, b, a);
    lemma_distinct_live_bound(s, c);
    chain_escapes(s, c, b, a);
    lemma_escapes_mono(s, b, a, c.len() as nat, s.items_seq().len() as nat);
}

/// Every id in a bucket stands on an edge of the list.
proof fn lemma_children_in_edge(s: Seq<Edge>, p: Option<u128>, k: int)
    requires
        0 <= k < children_in(s, p).len(),
    ensures
        exists|e: int| 0 <= e < s.len() && s[e] == (p, children_in(s, p)[k]),
    decreases s.len(),
{
    if s.len() > 0 {
        let rest = children_in(s.drop_last(), p);
        if s.last().0 == p && k == children_in(s, p).len() - 1 {
            assert(s[s.len() - 1] == (p, children_in(s, p)[k]));
        } else {
            lemma_children_in_edge(s.drop_last(), p, k);
            let e = choose|e: int|
                0 <= e < s.drop_last().len() && s.drop_last()[e] == (p, children_in(s, p)[k]);
            assert(s[e] == (p, children_in(s, p)[k]));
        }
    }
}

/// In a well-formed list, every id in a bucket is live; used where a bucket
/// is walked and each child looked up.
proof fn lemma_children_in_live(s: Seq<Edge>, p: Option<u128>, k: int)
    requires
        0 <= k < children_in(s, p).len(),
    ensures
        has_child(s, children_in(s, p)[k]),
{
    lemma_children_in_edge(s, p, k);
}

} // verus!
