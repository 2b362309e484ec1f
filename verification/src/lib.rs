//! An in-memory key-value service core: a tagged wire value type with its
//! line-oriented codec, a capacity-bounded store with FIFO eviction and a
//! pluggable audit logger, a stateless request dispatcher, and the admission
//! model of the fixed worker pool that serves connections.
pub mod event_loop;
pub mod traits;
pub mod types;

use crate::traits::RedisLogger;
use crate::types::redis_type::{
    lemma_shapes_of_drop_first, lemma_shapes_of_push, lemma_shapes_of_remove,
};
use crate::types::{shapes_of, RedisError, RedisOp, RedisRequest, RedisType, ValueView};
use vstd::string::StringExecFns;
use std::collections::VecDeque;
use vstd::prelude::*;

verus! {

/// Default capacity of a store built without an explicit one.
pub const DEFAULT_REDIS_SIZE: usize = 10_000;

#[verifier::external_type_specification]
#[verifier::external_body]
#[verifier::reject_recursive_types(K)]
#[verifier::reject_recursive_types(V)]
#[verifier::reject_recursive_types(S)]
pub struct ExDashMap<K, V, S>(dashmap::DashMap<K, V, S>);

/// A table's bindings: each key's shape bound to its value's shape.
pub type TableView = Map<ValueView, ValueView>;

/// What a table holds. Two keys of equal shape are one key to the
/// table, since the table compares keys by their structural equality.
pub uninterp spec fn table_contents(m: dashmap::DashMap<RedisType, RedisType>) -> TableView;

/// A table with nothing in it.
pub open spec fn empty_table() -> TableView {
    Map::empty()
}

/// Relies on dashmap::DashMap::insert: afterwards the key is bound to
/// the value, and every other binding stands as it was.
#[verifier::external_body]
fn dash_insert(m: &mut dashmap::DashMap<RedisType, RedisType>, k: RedisType, v: RedisType)
    ensures
        table_contents(*final(m)) == table_contents(*old(m)).insert(k.deep_view(), v.deep_view()),
{
    m.insert(k, v);
}

/// Relies on dashmap::DashMap::get: the value bound to the key, if the
/// key is in the table, cloned for the caller.
#[verifier::external_body]
fn dash_get(m: &dashmap::DashMap<RedisType, RedisType>, k: &RedisType) -> (r: Option<RedisType>)
    ensures
        match r {
            Some(v) => table_contents(*m).contains_key(k.deep_view()) && v.deep_view()
                == table_contents(*m)[k.deep_view()],
            None => !table_contents(*m).contains_key(k.deep_view()),
        },
{
    match m.get(k) {
        Some(r) => Some(r.value().clone()),
        None => None,
    }
}

/// Relies on dashmap::DashMap::remove: takes the key's binding out of
/// the table and hands back its value, if the key was there.
#[verifier::external_body]
fn dash_remove(m: &mut dashmap::DashMap<RedisType, RedisType>, k: &RedisType) -> (r: Option<
    RedisType,
>)
    ensures
        table_contents(*final(m)) == table_contents(*old(m)).remove(k.deep_view()),
        match r {
            Some(v) => table_contents(*old(m)).contains_key(k.deep_view()) && v.deep_view()
                == table_contents(*old(m))[k.deep_view()],
            None => !table_contents(*old(m)).contains_key(k.deep_view()),
        },
{
    match m.remove(k) {
        Some((_, v)) => Some(v),
        None => None,
    }
}

/// Relies on dashmap::DashMap::new: a fresh table holds nothing.
#[verifier::external_body]
fn dash_new() -> (fresh: dashmap::DashMap<RedisType, RedisType>)
    ensures
        table_contents(fresh) == empty_table(),
{
    dashmap::DashMap::new()
}

/// The key order after an add: a key already present moves to the back;
/// a fresh key goes to the back, evicting the front key when the store
/// is full.
pub open spec fn fifo_after_add(q: Seq<ValueView>, k: ValueView, cap: int) -> Seq<ValueView> {
    if q.contains(k) {
        q.remove_value(k).push(k)
    } else if q.len() < cap {
        q.push(k)
    } else {
        q.skip(1).push(k)
    }
}

/// The table after an add: the new binding, on top of everything except
/// a freshly evicted key.
pub open spec fn table_after_add(
    m: Map<ValueView, ValueView>,
    q: Seq<ValueView>,
    k: ValueView,
    v: ValueView,
    cap: int,
) -> Map<ValueView, ValueView> {
    if q.contains(k) || q.len() < cap {
        m.insert(k, v)
    } else {
        m.insert(k, v).remove(q[0])
    }
}

/// The main structure: a table of values keyed by values, bounded by a
/// fixed capacity, evicting its oldest key when full, and reporting
/// every operation to an audit logger injected at construction.
pub struct Redis<L: RedisLogger> {
    table: dashmap::DashMap<RedisType, RedisType>,
    queue: VecDeque<RedisType>,
    logger: L,
    capacity: usize,
}

impl<L: RedisLogger> Redis<L> {
    /// The table's bindings, as shapes.
    pub closed spec fn contents(&self) -> Map<ValueView, ValueView> {
        table_contents(self.table)
    }

    /// The keys in insertion order, oldest first.
    pub closed spec fn order(&self) -> Seq<ValueView> {
        crate::types::shapes_of(self.queue@)
    }

    /// The capacity fixed at construction.
    pub closed spec fn cap(&self) -> int {
        self.capacity as int
    }

    /// The audit logger the store was built around.
    pub closed spec fn audit(&self) -> L {
        self.logger
    }

    /// A look at the audit logger, for callers that drain or inspect it.
    pub fn logger(&self) -> (l: &L)
        ensures
            *l == self.audit(),
    {
        &self.logger
    }

    /// The store's invariant: the order holds each key exactly once,
    /// the table holds exactly the ordered keys, and no more keys than
    /// the capacity, which is at least one.
    pub closed spec fn wf(&self) -> bool {
        &&& self.capacity >= 1
        &&& self.order().no_duplicates()
        &&& forall|k: ValueView| self.contents().contains_key(k) <==> self.order().contains(k)
        &&& self.order().len() <= self.capacity
    }

    /// A store of the default capacity with the logger's default value.
    pub fn new() -> (r: Redis<L>) where L: Default
        ensures
            r.wf(),
            r.cap() == DEFAULT_REDIS_SIZE,
            r.contents() == Map::<ValueView, ValueView>::empty(),
            r.order() == Seq::<ValueView>::empty(),
    {
        Self::with_capacity(DEFAULT_REDIS_SIZE)
    }

    /// An empty store of the given capacity with the logger's default
    /// value.
    pub fn with_capacity(capacity: usize) -> (r: Redis<L>) where L: Default
        requires
            capacity >= 1,
        ensures
            r.wf(),
            r.cap() == capacity,
            r.contents() == Map::<ValueView, ValueView>::empty(),
            r.order() == Seq::<ValueView>::empty(),
    {
        let r = Redis {
            table: dash_new(),
            queue: VecDeque::new(),
            logger: L::default(),
            capacity,
        };
        proof {
            assert(r.order() =~= Seq::<ValueView>::empty());
        }
        r
    }

    /// An empty store of the given capacity around the given logger.
    pub fn with_capacity_and_logger(capacity: usize, logger: L) -> (r: Redis<L>)
        requires
            capacity >= 1,
        ensures
            r.wf(),
            r.cap() == capacity,
            r.contents() == Map::<ValueView, ValueView>::empty(),
            r.order() == Seq::<ValueView>::empty(),
    {
        let r = Redis { table: dash_new(), queue: VecDeque::new(), logger, capacity };
        proof {
            assert(r.order() =~= Seq::<ValueView>::empty());
        }
        r
    }

    /// The first position of a key of this shape in the queue.
    fn find_in_queue(&self, key: &RedisType) -> (r: Option<usize>)
        ensures
            match r {
                Some(i) => self.order().index_of_first(key.deep_view()) == Some(i as int),
                None => !self.order().contains(key.deep_view()),
            },
    {
        let ghost q = self.order();
        let ghost kd = key.deep_view();
        let mut i: usize = 0;
        while i < self.queue.len()
            invariant
                i <= self.queue@.len(),
                q == self.order(),
                kd == key.deep_view(),
                forall|j: int| 0 <= j < i as int ==> q[j] != kd,
            decreases self.queue@.len() - i,
        {
            if self.queue[i].same_value(key) {
                proof {
                    assert(q[i as int] == kd);
                    q.index_of_first_ensures(kd);
                    match q.index_of_first(kd) {
                        Some(w) => {
                            if w < i as int {
                                assert(q[w] != kd);
                                assert(false);
                            }
                            if w > i as int {
                                assert(q[i as int] != kd);
                                assert(false);
                            }
                        },
                        None => {
                            assert(!q.contains(kd));
                            assert(q[i as int] == kd);
                            assert(false);
                        },
                    }
                }
                return Some(i);
            }
            i = i + 1;
        }
        proof {
            if q.contains(kd) {
                let w = choose|w: int| 0 <= w < q.len() && q[w] == kd;
                assert(q[w] != kd);
            }
        }
        None
    }

    /// The value a key's shape is bound to, or `Null` when it is not
    /// bound.
    pub open spec fn value_or_null(m: TableView, k: ValueView) -> ValueView {
        if m.contains_key(k) {
            m[k]
        } else {
            ValueView::Null
        }
    }

    /// Records the add with the logger, then binds the key to the value
    /// and moves it to the back of the order, evicting the oldest key
    /// when a fresh key overflows the capacity. A logger failure aborts
    /// the add and leaves the store as it was.
    pub fn add(&mut self, key: RedisType, value: RedisType) -> (r: Result<(), RedisError>)
        requires
            old(self).wf(),
        ensures
            final(self).wf(),
            final(self).cap() == old(self).cap(),
            r is Ok ==> final(self).contents() == table_after_add(
                old(self).contents(),
                old(self).order(),
                key.deep_view(),
                value.deep_view(),
                old(self).cap(),
            ) && final(self).order() == fifo_after_add(
                old(self).order(),
                key.deep_view(),
                old(self).cap(),
            ),
            r is Err ==> final(self).contents() == old(self).contents() && final(self).order()
                == old(self).order(),
    {
        let kc = key.clone();
        let vc = value.clone();
        match self.logger.log(RedisOp::Add, Some(kc), Some(vc)) {
            Ok(()) => {},
            Err(e) => {
                return Err(e);
            },
        }
        let ghost q0 = self.order();
        let ghost m0 = self.contents();
        let ghost kd = key.deep_view();
        let ghost vd = value.deep_view();
        let idx = self.find_in_queue(&key);
        let kq = key.clone();
        dash_insert(&mut self.table, key, value);
        match idx {
            Some(i) => {
                let ghost qv = self.queue@;
                self.queue.remove(i);
                self.queue.push_back(kq);
                proof {
                    q0.index_of_first_ensures(kd);
                    assert(0 <= i < q0.len() && q0[i as int] == kd);
                    lemma_shapes_of_remove(qv, i as int);
                    lemma_shapes_of_push(qv.remove(i as int), kq);
                    let q1 = q0.remove(i as int);
                    assert(self.order() == q1.push(kd));
                    assert(q0.remove_value(kd) == q1);
                    assert(q0.contains(kd));
                    assert(self.order() == fifo_after_add(q0, kd, self.capacity as int));
                    assert(self.contents() == m0.insert(kd, vd));
                    assert(0 <= (i as int) < q0.len() && q0[i as int] == kd && q1 == q0.remove(
                        i as int,
                    ));
                    lemma_order_after_reinsert(m0, q0, q1, kd, vd);
                    assert(self.capacity >= 1);
                    assert(self.order().no_duplicates());
                    assert(self.order().len() <= self.capacity);
                    assert(forall|k2: ValueView|
                        self.contents().contains_key(k2) <==> self.order().contains(k2));
                    assert(self.wf());
                }
                Ok(())
            },
            None => {
                self.queue.push_back(kq);
                proof {
                    lemma_shapes_of_push(old(self).queue@, kq);
                    assert(self.order() == q0.push(kd));
                    assert(!q0.contains(kd));
                }
                if self.queue.len() > self.capacity {
                    proof {
                        assert(q0.len() == self.capacity);
                    }
                    match self.queue.pop_front() {
                        Some(old_key) => {
                            let ghost q_mid = q0.push(kd);
                            proof {
                                assert(old_key.deep_view() == q_mid[0]);
                                assert(q_mid[0] == q0[0]);
                                lemma_shapes_of_drop_first(old(self).queue@.push(kq));
                                assert(self.order() == q_mid.drop_first());
                                assert(q_mid.drop_first() =~= q0.skip(1).push(kd));
                                assert(q0.contains(q0[0]));
                                assert(m0.contains_key(q0[0]));
                                assert(kd != q0[0]);
                                assert(m0.insert(kd, vd).contains_key(old_key.deep_view()));
                            }
                            match dash_remove(&mut self.table, &old_key) {
                                Some(_) => {
                                    proof {
                                        assert(self.contents() == m0.insert(kd, vd).remove(q0[0]));
                                        assert(self.order() == q0.skip(1).push(kd));
                                        lemma_order_after_evict(m0, q0, kd, vd);
                                        assert(self.capacity >= 1);
                                        assert(self.order().no_duplicates());
                                        assert(self.order().len() == q0.len());
                                        assert(self.order().len() <= self.capacity);
                                        assert(forall|k2: ValueView|
                                            self.contents().contains_key(k2)
                                                <==> self.order().contains(k2));
                                        assert(self.wf());
                                    }
                                    Ok(())
                                },
                                None => {
                                    // dead given the invariant: every ordered key is in the table
                                    Err(RedisError::Custom(String::from_str(
                                        "Failed to remove key from table",
                                    )))
                                },
                            }
                        },
                        None => {
                            // dead given the invariant: the order was at capacity, so nonempty
                            proof {
                                assert(false);
                            }
                            Err(RedisError::Custom(String::from_str("Failed to pop key from queue")))
                        },
                    }
                } else {
                    proof {
                        assert(q0.len() < self.capacity);
                        let q2 = q0.push(kd);
                        assert(forall|w: int| 0 <= w < q0.len() ==> q2[w] == #[trigger] q0[w]);
                        assert(forall|w: int| 0 <= w < q0.len() ==> q0[w] != kd);
                        assert(q2[q0.len() as int] == kd);
                        assert(q2.no_duplicates());
                        assert forall|k2: ValueView|
                            self.contents().contains_key(k2) <==> self.order().contains(k2) by {
                            if q2.contains(k2) {
                                let w = choose|w: int| 0 <= w < q2.len() && q2[w] == k2;
                                if w < q0.len() {
                                    assert(q0[w] == k2);
                                    assert(q0.contains(k2));
                                } else {
                                    assert(k2 == kd);
                                }
                            }
                            if q0.contains(k2) {
                                let w = choose|w: int| 0 <= w < q0.len() && q0[w] == k2;
                                assert(q2[w] == k2);
                                assert(q2.contains(k2));
                            }
                            if k2 == kd {
                                assert(q2.contains(k2));
                            }
                        }
                        assert(self.wf());
                    }
                    Ok(())
                }
            },
        }
    }

    /// Records the read with the logger (a failure there is ignored) and
    /// returns the value the key is bound to, or `Null` when it is not
    /// bound. The store is left as it was.
    pub fn get(&mut self, key: RedisType) -> (r: RedisType)
        requires
            old(self).wf(),
        ensures
            final(self).wf(),
            final(self).cap() == old(self).cap(),
            final(self).contents() == old(self).contents(),
            final(self).order() == old(self).order(),
            r.deep_view() == Self::value_or_null(old(self).contents(), key.deep_view()),
    {
        let kc = key.clone();
        match self.logger.log(RedisOp::Get, Some(kc), None) {
            Ok(()) => {},
            Err(_) => {},
        }
        match dash_get(&self.table, &key) {
            Some(v) => v,
            None => RedisType::Null,
        }
    }

    /// Answers the liveness probe. Takes the store immutably, so it can
    /// neither change the store nor reach the logger, whose recording
    /// method needs exclusive access.
    pub fn ping(&self) -> (r: RedisType)
        ensures
            r.deep_view() == ValueView::Str("PONG"@),
    {
        RedisType::String(String::from_str("PONG"))
    }

    /// True when the two states hold the same bindings in the same
    /// order.
    pub open spec fn same_state(pre: Self, post: Self) -> bool {
        post.contents() == pre.contents() && post.order() == pre.order()
    }

    /// Carries one parsed request out against the store and shapes the
    /// answer for the wire: every operation and every combination of
    /// present and missing fields gets a well-formed value back.
    pub fn handle_command(&mut self, command: RedisRequest) -> (r: RedisType)
        requires
            old(self).wf(),
        ensures
            final(self).wf(),
            final(self).cap() == old(self).cap(),
            command.op == RedisOp::Ping ==> r.deep_view() == ValueView::Str("PONG"@)
                && Self::same_state(*old(self), *final(self)),
            command.op == RedisOp::Error ==> r.deep_view() == ValueView::Fail(
                "Unsupported operation"@,
            ) && Self::same_state(*old(self), *final(self)),
            (command.op == RedisOp::Add || command.op == RedisOp::Get || command.op
                == RedisOp::Delete) && command.key is None ==> r.deep_view() == ValueView::Fail(
                "Key is not provided"@,
            ) && Self::same_state(*old(self), *final(self)),
            command.op == RedisOp::Add && command.key is Some && command.value is None
                ==> r.deep_view() == ValueView::Fail("Value is not provided"@) && Self::same_state(
                *old(self),
                *final(self),
            ),
            (command.op == RedisOp::Add && command.key is Some && command.value is Some) ==> ({
                let k = command.key->0;
                let v = command.value->0;
                (r.deep_view() == ValueView::Okay && final(self).contents() == table_after_add(
                    old(self).contents(),
                    old(self).order(),
                    k.deep_view(),
                    v.deep_view(),
                    old(self).cap(),
                ) && final(self).order() == fifo_after_add(
                    old(self).order(),
                    k.deep_view(),
                    old(self).cap(),
                )) || (r.deep_view() == ValueView::Fail("Error while adding"@) && Self::same_state(
                    *old(self),
                    *final(self),
                ))
            }),
            (command.op == RedisOp::Get && command.key is Some) ==> ({
                let k = command.key->0;
                r.deep_view() == Self::value_or_null(old(self).contents(), k.deep_view())
                    && Self::same_state(*old(self), *final(self))
            }),
            (command.op == RedisOp::Delete && command.key is Some) ==> ({
                let k = command.key->0;
                (r.deep_view() == ValueView::Okay && final(self).contents() == old(
                    self,
                ).contents().remove(k.deep_view()) && final(self).order() == old(
                    self,
                ).order().remove_value(k.deep_view())) || (r.deep_view() == ValueView::Fail(
                    "Error while deleting"@,
                ) && Self::same_state(*old(self), *final(self)))
            }),
    {
        match command.op {
            RedisOp::Add => match command.key {
                Some(k) => match command.value {
                    Some(v) => match self.add(k, v) {
                        Ok(()) => RedisType::Okay,
                        Err(_) => RedisType::Error(String::from_str("Error while adding")),
                    },
                    None => RedisType::Error(String::from_str("Value is not provided")),
                },
                None => RedisType::Error(String::from_str("Key is not provided")),
            },
            RedisOp::Get => match command.key {
                Some(k) => self.get(k),
                None => RedisType::Error(String::from_str("Key is not provided")),
            },
            RedisOp::Delete => match command.key {
                Some(k) => match self.delete(k) {
                    Ok(()) => RedisType::Okay,
                    Err(_) => RedisType::Error(String::from_str("Error while deleting")),
                },
                None => RedisType::Error(String::from_str("Key is not provided")),
            },
            RedisOp::Ping => self.ping(),
            RedisOp::Error => RedisType::Error(String::from_str("Unsupported operation")),
        }
    }

    /// Records the delete with the logger, then removes the key's
    /// binding and its place in the order; an absent key leaves the
    /// store as it was, and is no error. A logger failure aborts the
    /// delete.
    pub fn delete(&mut self, key: RedisType) -> (r: Result<(), RedisError>)
        requires
            old(self).wf(),
        ensures
            final(self).wf(),
            final(self).cap() == old(self).cap(),
            r is Ok ==> final(self).contents() == old(self).contents().remove(key.deep_view())
                && final(self).order() == old(self).order().remove_value(key.deep_view()),
            r is Err ==> final(self).contents() == old(self).contents() && final(self).order()
                == old(self).order(),
    {
        let kc = key.clone();
        match self.logger.log(RedisOp::Delete, Some(kc), None) {
            Ok(()) => {},
            Err(e) => {
                return Err(e);
            },
        }
        let ghost q0 = self.order();
        let ghost m0 = self.contents();
        let ghost kd = key.deep_view();
        let idx = self.find_in_queue(&key);
        match idx {
            Some(i) => {
                let ghost qv = self.queue@;
                self.queue.remove(i);
                match dash_remove(&mut self.table, &key) {
                    Some(_) => {},
                    None => {},
                }
                proof {
                    q0.index_of_first_ensures(kd);
                    lemma_shapes_of_remove(qv, i as int);
                    let q1 = q0.remove(i as int);
                    assert(self.order() == q1);
                    assert(q0.remove_value(kd) == q1);
                    assert(self.contents() == m0.remove(kd));
                    lemma_order_after_delete(m0, q0, q1, kd);
                    assert(self.wf());
                }
                Ok(())
            },
            None => {
                proof {
                    q0.index_of_first_ensures(kd);
                    assert(!q0.contains(kd));
                    assert(q0.remove_value(kd) == q0);
                    assert(!m0.contains_key(kd));
                    assert(m0.remove(kd) =~= m0);
                }
                Ok(())
            },
        }
    }
}

/// After a re-insert, the order still lists exactly the table's keys,
/// each once.
proof fn lemma_order_after_reinsert(
    m0: TableView,
    q0: Seq<ValueView>,
    q1: Seq<ValueView>,
    kd: ValueView,
    vd: ValueView,
)
    requires
        q0.no_duplicates(),
        forall|k: ValueView| m0.contains_key(k) <==> q0.contains(k),
        exists|i: int| 0 <= i < q0.len() && q0[i] == kd && q1 == q0.remove(i),
    ensures
        q1.push(kd).no_duplicates(),
        q1.push(kd).len() == q0.len(),
        forall|k: ValueView|
            m0.insert(kd, vd).contains_key(k) <==> #[trigger] q1.push(kd).contains(k),
{
    let i = choose|i: int| 0 <= i < q0.len() && q0[i] == kd && q1 == q0.remove(i);
    assert(q1 =~= q0.subrange(0, i) + q0.subrange(i + 1, q0.len() as int));
    assert(forall|j: int|
        0 <= j < q1.len() ==> q1[j] == (if j < i {
            q0[j]
        } else {
            q0[j + 1]
        }));
    assert(forall|j: int| 0 <= j < q1.len() ==> q1[j] != kd);
    let q2 = q1.push(kd);
    assert(q2.no_duplicates());
    assert forall|k: ValueView| m0.insert(kd, vd).contains_key(k) implies #[trigger] q2.contains(k) by {
        if k == kd {
            assert(q2[q1.len() as int] == kd);
        } else {
            assert(m0.contains_key(k));
            assert(q0.contains(k));
            let w = choose|w: int| 0 <= w < q0.len() && q0[w] == k;
            if w < i {
                assert(q1[w] == k);
                assert(q2[w] == k);
            } else {
                assert(w != i);
                assert(q1[w - 1] == k);
                assert(q2[w - 1] == k);
            }
        }
    }
    assert forall|k: ValueView| #[trigger] q2.contains(k) implies m0.insert(kd, vd).contains_key(k) by {
        let w = choose|w: int| 0 <= w < q2.len() && q2[w] == k;
        if w == q1.len() {
            assert(k == kd);
        } else {
            if w < i {
                assert(q0[w] == k);
            } else {
                assert(q0[w + 1] == k);
            }
            assert(q0.contains(k));
        }
    }
}

/// After an eviction, the order still lists exactly the table's keys,
/// each once.
proof fn lemma_order_after_evict(m0: TableView, q0: Seq<ValueView>, kd: ValueView, vd: ValueView)
    requires
        q0.no_duplicates(),
        q0.len() >= 1,
        !q0.contains(kd),
        forall|k: ValueView| m0.contains_key(k) <==> q0.contains(k),
    ensures
        q0.skip(1).push(kd).no_duplicates(),
        forall|k: ValueView|
            m0.insert(kd, vd).remove(q0[0]).contains_key(k) <==> #[trigger] q0.skip(1).push(
                kd,
            ).contains(k),
{
    let q1 = q0.skip(1);
    assert(q1 =~= q0.subrange(1, q0.len() as int));
    assert(forall|j: int| 0 <= j < q1.len() ==> q1[j] == q0[j + 1]);
    assert(forall|j: int| 0 <= j < q1.len() ==> q1[j] != kd) by {
        assert(forall|j: int| 0 <= j < q0.len() ==> q0[j] != kd);
    }
    let q2 = q1.push(kd);
    assert(q2.no_duplicates());
    assert forall|k: ValueView| m0.insert(kd, vd).remove(q0[0]).contains_key(k) implies #[trigger] q2.contains(
        k,
    ) by {
        if k == kd {
            assert(q2[q1.len() as int] == kd);
        } else {
            assert(m0.contains_key(k) && k != q0[0]);
            assert(q0.contains(k));
            let w = choose|w: int| 0 <= w < q0.len() && q0[w] == k;
            assert(q0[w] == k && k != q0[0]);
            assert(w != 0);
            assert(q1[w - 1] == k);
            assert(q2[w - 1] == k);
        }
    }
    assert forall|k: ValueView| #[trigger] q2.contains(k) implies m0.insert(kd, vd).remove(
        q0[0],
    ).contains_key(k) by {
        let w = choose|w: int| 0 <= w < q2.len() && q2[w] == k;
        if w == q1.len() {
            assert(k == kd);
            assert(kd != q0[0]);
        } else {
            assert(q0[w + 1] == k);
            assert(q0.contains(k));
            assert(k != q0[0]);
        }
    }
}

/// After a delete, the order still lists exactly the table's keys, each
/// once.
proof fn lemma_order_after_delete(m0: TableView, q0: Seq<ValueView>, q1: Seq<ValueView>, kd: ValueView)
    requires
        q0.no_duplicates(),
        forall|k: ValueView| m0.contains_key(k) <==> q0.contains(k),
        exists|i: int| 0 <= i < q0.len() && q0[i] == kd && q1 == q0.remove(i),
    ensures
        q1.no_duplicates(),
        q1.len() < q0.len(),
        forall|k: ValueView| m0.remove(kd).contains_key(k) <==> #[trigger] q1.contains(k),
{
    let i = choose|i: int| 0 <= i < q0.len() && q0[i] == kd && q1 == q0.remove(i);
    assert(q1 =~= q0.subrange(0, i) + q0.subrange(i + 1, q0.len() as int));
    assert(forall|j: int|
        0 <= j < q1.len() ==> q1[j] == (if j < i {
            q0[j]
        } else {
            q0[j + 1]
        }));
    assert(forall|j: int| 0 <= j < q1.len() ==> q1[j] != kd);
    assert(q1.no_duplicates());
    assert forall|k: ValueView| m0.remove(kd).contains_key(k) implies #[trigger] q1.contains(k) by {
        assert(m0.contains_key(k) && k != kd);
        assert(q0.contains(k));
        let w = choose|w: int| 0 <= w < q0.len() && q0[w] == k;
        if w < i {
            assert(q1[w] == k);
        } else {
            assert(w != i);
            assert(q1[w - 1] == k);
        }
    }
    assert forall|k: ValueView| #[trigger] q1.contains(k) implies m0.remove(kd).contains_key(k) by {
        let w = choose|w: int| 0 <= w < q1.len() && q1[w] == k;
        if w < i {
            assert(q0[w] == k);
        } else {
            assert(q0[w + 1] == k);
        }
        assert(q0.contains(k));
        assert(k != kd);
    }
}

/// Idempotent delete: a key the store does not hold is removed as a
/// no-op — the delete succeeds and both the table and the order stand
/// unchanged.
pub proof fn lemma_delete_absent_noop(m: TableView, q: Seq<ValueView>, k: ValueView)
    requires
        forall|k2: ValueView| m.contains_key(k2) <==> q.contains(k2),
        !q.contains(k),
    ensures
        m.remove(k) == m,
        q.remove_value(k) == q,
{
    assert(!m.contains_key(k));
    assert(m.remove(k) =~= m);
    q.index_of_first_ensures(k);
}

/// The order after a run of adds, oldest addition first.
pub open spec fn fifo_add_all(q: Seq<ValueView>, ks: Seq<ValueView>, cap: int) -> Seq<ValueView>
    decreases ks.len(),
{
    if ks.len() == 0 {
        q
    } else {
        fifo_after_add(fifo_add_all(q, ks.drop_last(), cap), ks.last(), cap)
    }
}

/// Capacity invariant: adding distinct keys, in order, into an empty
/// store of capacity `cap` leaves exactly the last `cap` of them (all
/// of them when there are fewer), oldest first. By the store invariant
/// the table's keys are exactly the ordered keys, so the store holds
/// exactly that many bindings.
pub proof fn lemma_capacity_invariant(ks: Seq<ValueView>, cap: int)
    requires
        cap >= 1,
        ks.no_duplicates(),
    ensures
        fifo_add_all(Seq::empty(), ks, cap) == if ks.len() <= cap {
            ks
        } else {
            ks.skip(ks.len() - cap)
        },
        fifo_add_all(Seq::empty(), ks, cap).len() == if ks.len() <= cap {
            ks.len() as int
        } else {
            cap
        },
    decreases ks.len(),
{
    if ks.len() == 0 {
        assert(fifo_add_all(Seq::empty(), ks, cap) =~= ks);
    } else {
        let ks0 = ks.drop_last();
        let k = ks.last();
        assert(forall|j: int| 0 <= j < ks0.len() ==> ks0[j] == #[trigger] ks[j]);
        assert(ks0.no_duplicates());
        lemma_capacity_invariant(ks0, cap);
        let q0 = fifo_add_all(Seq::empty(), ks0, cap);
        let s0: int = if ks0.len() <= cap {
            0
        } else {
            ks0.len() - cap
        };
        assert(q0 =~= ks0.skip(s0));
        assert(forall|j: int| 0 <= j < q0.len() ==> q0[j] == #[trigger] ks[j + s0]);
        assert(!q0.contains(k)) by {
            if q0.contains(k) {
                let w = choose|w: int| 0 <= w < q0.len() && q0[w] == k;
                assert(ks[w + s0] == ks[ks.len() - 1]);
                assert(w + s0 < ks.len() - 1);
                assert(false);
            }
        }
        if ks0.len() < cap {
            assert(q0.len() < cap);
            assert(fifo_add_all(Seq::empty(), ks, cap) == q0.push(k));
            assert(q0.push(k) =~= ks);
        } else {
            assert(q0.len() == cap);
            assert(fifo_add_all(Seq::empty(), ks, cap) == q0.skip(1).push(k));
            assert(q0.skip(1).push(k) =~= ks.skip(ks.len() - cap)) by {
                assert(forall|j: int|
                    0 <= j < cap - 1 ==> #[trigger] q0.skip(1)[j] == q0[j + 1]);
            }
        }
    }
}

} // verus!
