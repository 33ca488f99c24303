//! The queue ledger: a doubly-linked list of claim nodes held under integer
//! keys, with head/tail/length metadata in a single root record.
//!
//! Node ids are assigned as `tail_id + 1`, so they increase strictly from
//! head to tail and a new node's id is larger than the id of every node that
//! is live at the moment of the append.
//!
//! The mathematical content of a queue is the sequence of its entries in
//! first-in-first-out order ([`QueueEntry`]); linkage is an implementation
//! detail that the well-formedness invariant ties to that sequence.
use vstd::prelude::*;

use std::collections::HashMap;

use crate::error::ContractError;

verus! {

broadcast use vstd::std_specs::hash::group_hash_axioms;

/// One pending claim: the owner it will be paid to, the value it still
/// represents, the block height it was created at, and its two links.
/// A link of `0` means "no neighbour on that side".
#[derive(Debug)]
pub struct Node {
    pub receiver: String,
    pub value: u128,
    pub height: u64,
    pub prev: u64,
    pub next: u64,
}

impl Clone for Node {
    fn clone(&self) -> (r: Self)
        ensures
            r == *self,
    {
        Node {
            receiver: self.receiver.clone(),
            value: self.value,
            height: self.height,
            prev: self.prev,
            next: self.next,
        }
    }
}

/// A node together with the id it is stored under.
#[derive(Debug)]
pub struct NodeWithId {
    pub id: u64,
    pub info: Node,
}

impl Clone for NodeWithId {
    fn clone(&self) -> (r: Self)
        ensures
            r == *self,
    {
        NodeWithId { id: self.id, info: self.info.clone() }
    }
}

/// The root record of the queue: the ids of the first and the last node and
/// the count of live nodes. An empty queue has `head_id == tail_id == 0`.
#[derive(Clone, Copy, Debug, PartialEq, Eq, Structural)]
pub struct LinkedList {
    pub head_id: u64,
    pub tail_id: u64,
    pub length: u64,
}

/// What one node contributes to the queue's content, with linkage and
/// storage abstracted away.
#[verifier::ext_equal]
pub ghost struct QueueEntry {
    pub id: u64,
    pub receiver: Seq<char>,
    pub value: u128,
    pub height: u64,
}

/// The persistent state of one queue instance: the root record plus the
/// node table, keyed by node id.
pub struct QueueStorage {
    state: LinkedList,
    nodes: HashMap<u64, Node>,
    order: Ghost<Seq<u64>>,
}

/// The sum of the values of all entries, head first.
pub open spec fn value_sum(q: Seq<QueueEntry>) -> int
    decreases q.len(),
{
    if q.len() == 0 {
        0
    } else {
        q[0].value + value_sum(q.drop_first())
    }
}

/// The sum of the values of the entries owned by `owner`.
pub open spec fn owner_sum(q: Seq<QueueEntry>, owner: Seq<char>) -> int
    decreases q.len(),
{
    if q.len() == 0 {
        0
    } else {
        (if q[0].receiver == owner {
            q[0].value as int
        } else {
            0
        }) + owner_sum(q.drop_first(), owner)
    }
}

/// The index of the entry with id `id`, or `-1` if there is none.
pub open spec fn index_of_id(q: Seq<QueueEntry>, id: u64) -> int
    decreases q.len(),
{
    if q.len() == 0 {
        -1
    } else if q[0].id == id {
        0
    } else {
        let r = index_of_id(q.drop_first(), id);
        if r < 0 {
            -1
        } else {
            r + 1
        }
    }
}

/// Whether some entry has id `id`.
pub open spec fn has_id(q: Seq<QueueEntry>, id: u64) -> bool {
    index_of_id(q, id) >= 0
}

/// The id that the next appended node will receive.
pub open spec fn spec_append_id(q: Seq<QueueEntry>) -> u64 {
    if q.len() == 0 {
        1u64
    } else {
        ((q.last().id + 1) as u64)
    }
}

pub proof fn lemma_index_of_id(q: Seq<QueueEntry>, id: u64)
    ensures
        index_of_id(q, id) >= 0 ==> {
            &&& index_of_id(q, id) < q.len()
            &&& q[index_of_id(q, id)].id == id
        },
        index_of_id(q, id) < 0 ==> forall|i: int| 0 <= i < q.len() ==> q[i].id != id,
    decreases q.len(),
{
    if q.len() > 0 && q[0].id != id {
        lemma_index_of_id(q.drop_first(), id);
        if index_of_id(q.drop_first(), id) < 0 {
            assert forall|i: int| 0 <= i < q.len() implies q[i].id != id by {
                if i > 0 {
                    assert(q.drop_first()[i - 1].id != id);
                }
            }
        }
    }
}

pub proof fn lemma_value_sum_push(q: Seq<QueueEntry>, e: QueueEntry)
    ensures
        value_sum(q.push(e)) == value_sum(q) + e.value,
    decreases q.len(),
{
    assert(value_sum(q.push(e)) == q.push(e)[0].value + value_sum(q.push(e).drop_first()));
    if q.len() == 0 {
        assert(q.push(e)[0] == e);
        assert(q.push(e).drop_first() =~= Seq::<QueueEntry>::empty());
    } else {
        assert(q.push(e)[0] == q[0]);
        assert(q.push(e).drop_first() =~= q.drop_first().push(e));
        lemma_value_sum_push(q.drop_first(), e);
    }
}

pub proof fn lemma_value_sum_update(q: Seq<QueueEntry>, i: int, e: QueueEntry)
    requires
        0 <= i < q.len(),
    ensures
        value_sum(q.update(i, e)) == value_sum(q) - q[i].value + e.value,
    decreases q.len(),
{
    if i == 0 {
        assert(q.update(0, e).drop_first() =~= q.drop_first());
    } else {
        assert(q.update(i, e).drop_first() =~= q.drop_first().update(i - 1, e));
        lemma_value_sum_update(q.drop_first(), i - 1, e);
    }
}

pub proof fn lemma_value_sum_remove(q: Seq<QueueEntry>, i: int)
    requires
        0 <= i < q.len(),
    ensures
        value_sum(q.remove(i)) == value_sum(q) - q[i].value,
    decreases q.len(),
{
    if i == 0 {
        assert(q.remove(0) =~= q.drop_first());
    } else {
        assert(q.remove(i).drop_first() =~= q.drop_first().remove(i - 1));
        lemma_value_sum_remove(q.drop_first(), i - 1);
    }
}

pub proof fn lemma_owner_sum_push(q: Seq<QueueEntry>, e: QueueEntry, owner: Seq<char>)
    ensures
        owner_sum(q.push(e), owner) == owner_sum(q, owner) + (if e.receiver == owner {
            e.value as int
        } else {
            0
        }),
    decreases q.len(),
{
    assert(owner_sum(q.push(e), owner) == (if q.push(e)[0].receiver == owner {
        q.push(e)[0].value as int
    } else {
        0
    }) + owner_sum(q.push(e).drop_first(), owner));
    if q.len() == 0 {
        assert(q.push(e)[0] == e);
        assert(q.push(e).drop_first() =~= Seq::<QueueEntry>::empty());
    } else {
        assert(q.push(e)[0] == q[0]);
        assert(q.push(e).drop_first() =~= q.drop_first().push(e));
        lemma_owner_sum_push(q.drop_first(), e, owner);
    }
}

/// Replacing the head entry shifts an owner's share by the difference of
/// the head contributions.
pub proof fn lemma_owner_sum_update0(q: Seq<QueueEntry>, e: QueueEntry, owner: Seq<char>)
    requires
        q.len() > 0,
    ensures
        owner_sum(q.update(0, e), owner) == owner_sum(q, owner) - (if q[0].receiver == owner {
            q[0].value as int
        } else {
            0
        }) + (if e.receiver == owner {
            e.value as int
        } else {
            0
        }),
{
    assert(q.update(0, e).drop_first() =~= q.drop_first());
    assert(q.update(0, e)[0] == e);
}

/// An owner's share of the queue is between zero and the whole sum.
pub proof fn lemma_owner_sum_bounds(q: Seq<QueueEntry>, owner: Seq<char>)
    ensures
        0 <= owner_sum(q, owner),
        owner_sum(q, owner) <= value_sum(q),
    decreases q.len(),
{
    if q.len() > 0 {
        lemma_owner_sum_bounds(q.drop_first(), owner);
    }
}

/// Every entry's value is at most the total: value never hides outside the
/// sum.
pub proof fn lemma_value_sum_bounds(q: Seq<QueueEntry>)
    ensures
        value_sum(q) >= 0,
        forall|i: int| 0 <= i < q.len() ==> #[trigger] q[i].value <= value_sum(q),
    decreases q.len(),
{
    if q.len() > 0 {
        lemma_value_sum_bounds(q.drop_first());
        assert forall|i: int| 0 <= i < q.len() implies #[trigger] q[i].value <= value_sum(q) by {
            if i > 0 {
                assert(q.drop_first()[i - 1] == q[i]);
            }
        }
    }
}

impl QueueStorage {
    /// The ids of the live nodes in first-in-first-out order.
    pub closed spec fn ord(self) -> Seq<u64> {
        self.order@
    }

    /// The node table, as a map from id to node.
    pub closed spec fn spec_nodes(self) -> Map<u64, Node> {
        self.nodes@
    }

    /// The root record.
    pub closed spec fn spec_root(self) -> LinkedList {
        self.state
    }

    spec fn entry_at(self, i: int) -> QueueEntry {
        let id = self.ord()[i];
        let node = self.nodes@[id];
        QueueEntry { id, receiver: node.receiver@, value: node.value, height: node.height }
    }

    spec fn root_ok(self) -> bool {
        &&& self.state.length == self.ord().len()
        &&& self.state.head_id == (if self.ord().len() == 0 {
            0u64
        } else {
            self.ord()[0]
        })
        &&& self.state.tail_id == (if self.ord().len() == 0 {
            0u64
        } else {
            self.ord().last()
        })
    }

    spec fn ids_ok(self) -> bool {
        &&& forall|i: int, j: int|
            0 <= i < j < self.ord().len() ==> #[trigger] self.ord()[i] < #[trigger] self.ord()[j]
        &&& forall|i: int| 0 <= i < self.ord().len() ==> 1 <= #[trigger] self.ord()[i]
    }

    spec fn dom_ok(self) -> bool {
        &&& forall|id: u64| #[trigger] self.nodes@.dom().contains(id) ==> self.ord().contains(id)
        &&& forall|i: int|
            0 <= i < self.ord().len() ==> self.nodes@.dom().contains(#[trigger] self.ord()[i])
    }

    spec fn links_ok(self) -> bool {
        forall|i: int|
            0 <= i < self.ord().len() ==> {
                let node = self.nodes@[#[trigger] self.ord()[i]];
                &&& node.prev == (if i == 0 {
                    0u64
                } else {
                    self.ord()[i - 1]
                })
                &&& node.next == (if i == self.ord().len() - 1 {
                    0u64
                } else {
                    self.ord()[i + 1]
                })
            }
    }

    /// The structural invariant: the root record matches the order, ids are
    /// positive and strictly increasing from head to tail, the node table
    /// holds exactly the live ids, and every node's links point at its
    /// neighbours in the order.
    pub closed spec fn wf(self) -> bool {
        &&& self.root_ok()
        &&& self.ids_ok()
        &&& self.dom_ok()
        &&& self.links_ok()
    }

    /// A fresh, empty queue.
    pub fn new() -> (q: QueueStorage)
        ensures
            q.wf(),
            q@ == Seq::<QueueEntry>::empty(),
    {
        let q = QueueStorage {
            state: LinkedList { head_id: 0, tail_id: 0, length: 0 },
            nodes: HashMap::new(),
            order: Ghost(Seq::empty()),
        };
        proof {
            assert(q@ =~= Seq::<QueueEntry>::empty());
        }
        q
    }
}

impl Clone for QueueStorage {
    fn clone(&self) -> (r: Self)
        ensures
            r.spec_root() == self.spec_root(),
            r.spec_nodes() == self.spec_nodes(),
            r.ord() == self.ord(),
            r@ == self@,
            r.wf() <==> self.wf(),
    {
        let r = QueueStorage {
            state: self.state,
            nodes: self.nodes.clone(),
            order: Ghost(self.order@),
        };
        proof {
            assert(r@ =~= self@) by {
                assert forall|i: int| 0 <= i < self.ord().len() implies r.entry_at(i)
                    == self.entry_at(i) by {}
            }
        }
        r
    }
}

impl View for QueueStorage {
    type V = Seq<QueueEntry>;

    closed spec fn view(&self) -> Seq<QueueEntry> {
        Seq::new(self.ord().len(), |i: int| self.entry_at(i))
    }
}

/// The root record as currently persisted.
pub fn linked_list_read(storage: &QueueStorage) -> (r: LinkedList)
    requires
        storage.wf(),
    ensures
        r.length == storage@.len(),
        r.head_id == (if storage@.len() == 0 {
            0u64
        } else {
            storage@[0].id
        }),
        r.tail_id == (if storage@.len() == 0 {
            0u64
        } else {
            storage@.last().id
        }),
{
    storage.state
}

/// The node stored under `node_id`, or `NotFound` if no live node has that
/// id.
pub fn node_read(storage: &QueueStorage, node_id: u64) -> (r: Result<Node, ContractError>)
    requires
        storage.wf(),
    ensures
        has_id(storage@, node_id) ==> (r matches Ok(node) && {
            let i = index_of_id(storage@, node_id);
            &&& node.receiver@ == storage@[i].receiver
            &&& node.value == storage@[i].value
            &&& node.height == storage@[i].height
            &&& node.prev == (if i == 0 {
                0u64
            } else {
                storage@[i - 1].id
            })
            &&& node.next == (if i == storage@.len() - 1 {
                0u64
            } else {
                storage@[i + 1].id
            })
        }),
        !has_id(storage@, node_id) ==> (r matches Err(e) && e == ContractError::NotFound),
{
    proof {
        lemma_index_of_id(storage@, node_id);
        storage.lemma_has_id_iff_dom(node_id);
    }
    match storage.nodes.get(&node_id) {
        Some(node) => {
            proof {
                let i = index_of_id(storage@, node_id);
                storage.lemma_view_index(i);
            }
            Ok(node.clone())
        },
        None => Err(ContractError::NotFound),
    }
}

impl QueueStorage {
    /// Under `wf`, the view's entry ids are exactly `ord`, position by
    /// position, and the entry fields restate the stored node.
    proof fn lemma_view_index(self, i: int)
        requires
            self.wf(),
            0 <= i < self@.len(),
        ensures
            self@[i].id == self.ord()[i],
            self@[i] == self.entry_at(i),
            self.nodes@.dom().contains(self.ord()[i]),
    {
    }

    /// Under `wf`, a node id is in the table exactly when the view has an
    /// entry carrying it, and `index_of_id` finds its position.
    proof fn lemma_has_id_iff_dom(self, id: u64)
        requires
            self.wf(),
        ensures
            self.nodes@.dom().contains(id) <==> has_id(self@, id),
            has_id(self@, id) ==> {
                let i = index_of_id(self@, id);
                &&& 0 <= i < self@.len()
                &&& self.ord()[i] == id
                &&& self@[i].id == id
            },
    {
        lemma_index_of_id(self@, id);
        if self.nodes@.dom().contains(id) {
            let j = choose|j: int| 0 <= j < self.ord().len() && self.ord()[j] == id;
            assert(self.ord().contains(id));
            assert(self@[j].id == id);
            if index_of_id(self@, id) < 0 {
                assert(false);
            }
        }
        if has_id(self@, id) {
            let i = index_of_id(self@, id);
            assert(self@[i].id == self.ord()[i]);
            assert(self.nodes@.dom().contains(self.ord()[i]));
        }
    }

    /// Ids are at least the successor of their position: a queue of length
    /// `n` has a tail id of at least `n`.
    proof fn lemma_ord_lower_bound(self, i: int)
        requires
            self.wf(),
            0 <= i < self.ord().len(),
        ensures
            self.ord()[i] >= i + 1,
        decreases i,
    {
        if i > 0 {
            self.lemma_ord_lower_bound(i - 1);
        }
    }
}

/// Appends a new node after the current tail, assigning it the id
/// `tail_id + 1`. The new id is strictly greater than the id of every node
/// currently in the queue.
#[verifier::rlimit(100)]
pub fn linked_list_append(
    storage: &mut QueueStorage,
    receiver: String,
    value: u128,
    height: u64,
) -> (r: Result<u64, ContractError>)
    requires
        old(storage).wf(),
        old(storage)@.len() == 0 || old(storage)@.last().id < u64::MAX,
    ensures
        final(storage).wf(),
        r == Ok::<u64, ContractError>(spec_append_id(old(storage)@)),
        final(storage)@ == old(storage)@.push(
            QueueEntry {
                id: spec_append_id(old(storage)@),
                receiver: receiver@,
                value,
                height,
            },
        ),
        forall|i: int|
            0 <= i < old(storage)@.len() ==> #[trigger] old(storage)@[i].id < spec_append_id(
                old(storage)@,
            ),
{
    proof {
        if storage@.len() > 0 {
            storage.lemma_view_index(storage@.len() - 1);
            storage.lemma_ord_lower_bound(storage.ord().len() - 1);
            assert forall|i: int| 0 <= i < storage@.len() implies #[trigger] storage@[i].id
                < spec_append_id(storage@) by {
                storage.lemma_view_index(i);
            }
        }
    }
    let ghost old_ord = storage.order@;
    let ghost old_self = *storage;
    let new_node_id = storage.state.tail_id + 1;
    let mut new_node_prev: u64 = 0;
    if storage.state.length == 0 {
        storage.state.head_id = new_node_id;
    } else {
        let tail_id = storage.state.tail_id;
        proof {
            storage.lemma_view_index(storage@.len() - 1);
        }
        let tail_ref = storage.nodes.get(&tail_id).unwrap();
        let mut tail_node = tail_ref.clone();
        tail_node.next = new_node_id;
        storage.nodes.insert(tail_id, tail_node);
        new_node_prev = tail_id;
    }
    let new_node = Node { receiver, value, height, prev: new_node_prev, next: 0 };
    storage.nodes.insert(new_node_id, new_node);
    storage.state.tail_id = new_node_id;
    storage.state.length = storage.state.length + 1;
    storage.order = Ghost(old_ord.push(new_node_id));
    proof {
        let ord = storage.ord();
        assert forall|id: u64| #[trigger] storage.nodes@.dom().contains(id) implies ord.contains(
            id,
        ) by {
            if id == new_node_id {
                assert(ord[ord.len() - 1] == id);
            } else {
                assert(old_self.nodes@.dom().contains(id));
                let j = choose|j: int| 0 <= j < old_ord.len() && old_ord[j] == id;
                assert(ord[j] == id);
            }
        }
        assert forall|i: int| 0 <= i < ord.len() implies storage.nodes@.dom().contains(
            #[trigger] ord[i],
        ) by {
            if i < ord.len() - 1 {
                assert(old_self.nodes@.dom().contains(old_ord[i]));
                assert(old_ord[i] < new_node_id);
            }
        }
        assert(storage.wf());
        assert(storage@ =~= old_self@.push(
            QueueEntry {
                id: spec_append_id(old_self@),
                receiver: new_node.receiver@,
                value,
                height,
            },
        )) by {
            assert forall|i: int| 0 <= i < old_self@.len() implies storage.entry_at(i)
                == old_self@[i] by {
                old_self.lemma_view_index(i);
                assert(old_ord[i] != new_node_id);
                if old_ord.len() > 0 && i < old_self@.len() - 1 {
                    assert(old_ord[i] != old_ord[old_ord.len() - 1]);
                }
            }
        }
    }
    Ok(new_node_id)
}

/// Removes every node and resets the root record to the empty state;
/// equivalent to removing the nodes one at a time.
#[verifier::rlimit(100)]
pub fn linked_list_clear(storage: &mut QueueStorage) -> (r: Result<(), ContractError>)
    requires
        old(storage).wf(),
    ensures
        final(storage).wf(),
        r == Ok::<(), ContractError>(()),
        final(storage)@ == Seq::<QueueEntry>::empty(),
{
    let ghost orig = *storage;
    let mut cur_id = storage.state.head_id;
    let ghost mut k: int = 0;
    while cur_id != 0
        invariant
            0 <= k <= orig.ord().len(),
            cur_id == (if k == orig.ord().len() {
                0u64
            } else {
                orig.ord()[k]
            }),
            storage.state == orig.state,
            storage.order@ == orig.order@,
            forall|id: u64|
                #[trigger] storage.nodes@.dom().contains(id) ==> exists|i: int|
                    k <= i < orig.ord().len() && orig.ord()[i] == id,
            forall|i: int|
                k <= i < orig.ord().len() ==> storage.nodes@.dom().contains(
                    #[trigger] orig.ord()[i],
                ) && storage.nodes@[orig.ord()[i]] == orig.nodes@[orig.ord()[i]],
        decreases orig.ord().len() - k,
    {
        proof {
            if k == orig.ord().len() {
                assert(false);
            }
        }
        let node = storage.nodes.get(&cur_id).unwrap().clone();
        storage.nodes.remove(&cur_id);
        cur_id = node.next;
        proof {
            let ord = orig.ord();
            assert(node == orig.nodes@[ord[k]]);
            k = k + 1;
            assert forall|id: u64| #[trigger] storage.nodes@.dom().contains(id) implies exists|
                i: int,
            | k <= i < ord.len() && ord[i] == id by {
                let i = choose|i: int| (k - 1) <= i < ord.len() && ord[i] == id;
                assert(id != ord[k - 1]);
                assert(k <= i < ord.len() && ord[i] == id);
            }
            assert forall|i: int| k <= i < ord.len() implies storage.nodes@.dom().contains(
                #[trigger] ord[i],
            ) && storage.nodes@[ord[i]] == orig.nodes@[ord[i]] by {
                assert(ord[i] != ord[k - 1]);
            }
        }
    }
    storage.state = LinkedList { head_id: 0, tail_id: 0, length: 0 };
    storage.order = Ghost(Seq::empty());
    proof {
        assert(k == orig.ord().len());
        assert(storage@ =~= Seq::<QueueEntry>::empty());
    }
    Ok(())
}

/// Removes the node at the head: the second node, if any, becomes the new
/// head with `prev = 0`. Fails with `NotFound` on an empty queue.
#[verifier::rlimit(100)]
pub fn linked_list_remove_head(storage: &mut QueueStorage) -> (r: Result<(), ContractError>)
    requires
        old(storage).wf(),
    ensures
        final(storage).wf(),
        old(storage)@.len() > 0 ==> r == Ok::<(), ContractError>(()) && final(storage)@ == old(
            storage,
        )@.drop_first(),
        old(storage)@.len() == 0 ==> r == Err::<(), ContractError>(ContractError::NotFound)
            && final(storage)@ == old(storage)@,
{
    let ghost orig = *storage;
    if storage.state.length == 1 {
        let res = linked_list_clear(storage);
        proof {
            assert(orig@.drop_first() =~= Seq::<QueueEntry>::empty());
        }
        res
    } else {
        let old_head_id = storage.state.head_id;
        match storage.nodes.get(&old_head_id) {
            None => {
                proof {
                    if orig.ord().len() > 0 {
                        assert(orig.nodes@.dom().contains(orig.ord()[0]));
                        assert(false);
                    }
                }
                Err(ContractError::NotFound)
            },
            Some(old_head_ref) => {
                let old_head = old_head_ref.clone();
                proof {
                    if orig.ord().len() == 0 {
                        assert(orig.ord().contains(old_head_id));
                        assert(false);
                    }
                    assert(orig.ord().len() >= 2);
                    assert(old_head == orig.nodes@[orig.ord()[0]]);
                    assert(orig.nodes@.dom().contains(orig.ord()[1]));
                }
                let new_head_id = old_head.next;
                let mut new_head = storage.nodes.get(&new_head_id).unwrap().clone();
                new_head.prev = 0;
                storage.nodes.remove(&old_head_id);
                storage.state.head_id = new_head_id;
                storage.state.length = storage.state.length - 1;
                storage.nodes.insert(new_head_id, new_head);
                storage.order = Ghost(storage.order@.drop_first());
                proof {
                    let oord = orig.ord();
                    let ord = storage.ord();
                    assert(ord =~= oord.subrange(1, oord.len() as int));
                    assert forall|id: u64|
                        #[trigger] storage.nodes@.dom().contains(id) implies ord.contains(id) by {
                        assert(orig.nodes@.dom().contains(id));
                        let i = choose|i: int| 0 <= i < oord.len() && oord[i] == id;
                        assert(id != oord[0]);
                        assert(i >= 1);
                        assert(ord[i - 1] == id);
                    }
                    assert forall|i: int| 0 <= i < ord.len() implies storage.nodes@.dom().contains(
                        #[trigger] ord[i],
                    ) by {
                        assert(oord[i + 1] != oord[0]);
                    }
                    assert forall|i: int| 0 <= i < ord.len() implies {
                        let node = storage.nodes@[#[trigger] ord[i]];
                        &&& node.prev == (if i == 0 {
                            0u64
                        } else {
                            ord[i - 1]
                        })
                        &&& node.next == (if i == ord.len() - 1 {
                            0u64
                        } else {
                            ord[i + 1]
                        })
                    } by {
                        if i > 0 {
                            assert(oord[i + 1] != oord[0]);
                            assert(oord[i + 1] != oord[1]);
                            assert(storage.nodes@[ord[i]] == orig.nodes@[oord[i + 1]]);
                        }
                    }
                    assert(storage.wf());
                    assert(storage@ =~= orig@.drop_first()) by {
                        assert forall|i: int| 0 <= i < ord.len() implies storage.entry_at(i)
                            == orig@[i + 1] by {
                            orig.lemma_view_index(i + 1);
                            if i > 0 {
                                assert(oord[i + 1] != oord[1]);
                            }
                        }
                    }
                }
                Ok(())
            },
        }
    }
}

/// Removes the node at the tail: the next-to-last node, if any, becomes the
/// new tail with `next = 0`. Fails with `NotFound` on an empty queue.
pub fn linked_list_remove_tail(storage: &mut QueueStorage) -> (r: Result<(), ContractError>)
    requires
        old(storage).wf(),
    ensures
        final(storage).wf(),
        old(storage)@.len() > 0 ==> r == Ok::<(), ContractError>(()) && final(storage)@ == old(
            storage,
        )@.drop_last(),
        old(storage)@.len() == 0 ==> r == Err::<(), ContractError>(ContractError::NotFound)
            && final(storage)@ == old(storage)@,
{
    let ghost orig = *storage;
    if storage.state.length == 1 {
        let res = linked_list_clear(storage);
        proof {
            assert(orig@.drop_last() =~= Seq::<QueueEntry>::empty());
        }
        res
    } else {
        let old_tail_id = storage.state.tail_id;
        match storage.nodes.get(&old_tail_id) {
            None => {
                proof {
                    if orig.ord().len() > 0 {
                        assert(orig.nodes@.dom().contains(orig.ord().last()));
                        assert(false);
                    }
                }
                Err(ContractError::NotFound)
            },
            Some(old_tail_ref) => {
                let old_tail = old_tail_ref.clone();
                proof {
                    if orig.ord().len() == 0 {
                        assert(orig.ord().contains(old_tail_id));
                        assert(false);
                    }
                    assert(orig.ord().len() >= 2);
                    assert(old_tail == orig.nodes@[orig.ord().last()]);
                    assert(orig.nodes@.dom().contains(orig.ord()[orig.ord().len() - 2]));
                }
                let new_tail_id = old_tail.prev;
                let mut new_tail = storage.nodes.get(&new_tail_id).unwrap().clone();
                new_tail.next = 0;
                storage.nodes.remove(&old_tail_id);
                storage.state.tail_id = new_tail_id;
                storage.state.length = storage.state.length - 1;
                storage.nodes.insert(new_tail_id, new_tail);
                storage.order = Ghost(storage.order@.drop_last());
                proof {
                    let oord = orig.ord();
                    let olen = oord.len() as int;
                    assert(storage.nodes@ =~= orig.nodes@.remove(oord.last()).insert(
                        oord[olen - 2],
                        Node { next: 0u64, ..orig.nodes@[oord[olen - 2]] },
                    ));
                    lemma_remove_tail_shape(orig, *storage);
                }
                Ok(())
            },
        }
    }
}

/// After deleting the tail and clearing the next-to-last node's `next`
/// link, the queue is again well formed and its content is the old content
/// without its last entry.
#[verifier::rlimit(100)]
proof fn lemma_remove_tail_shape(orig: QueueStorage, cur: QueueStorage)
    requires
        orig.wf(),
        orig.ord().len() >= 2,
        cur.ord() == orig.ord().drop_last(),
        cur.spec_root().length == orig.ord().len() - 1,
        cur.spec_root().head_id == orig.spec_root().head_id,
        cur.spec_root().tail_id == orig.ord()[orig.ord().len() - 2],
        cur.spec_nodes() == orig.spec_nodes().remove(orig.ord().last()).insert(
            orig.ord()[orig.ord().len() - 2],
            Node { next: 0u64, ..orig.spec_nodes()[orig.ord()[orig.ord().len() - 2]] },
        ),
    ensures
        cur.wf(),
        cur@ == orig@.drop_last(),
{
    let oord = orig.ord();
    let ord = cur.ord();
    let olen = oord.len() as int;
    assert(ord =~= oord.subrange(0, olen - 1));
    assert forall|id: u64|
        #[trigger] cur.spec_nodes().dom().contains(id) implies ord.contains(id) by {
        assert(orig.spec_nodes().dom().contains(id));
        let i = choose|i: int| 0 <= i < oord.len() && oord[i] == id;
        assert(id != oord[olen - 1]);
        assert(i < olen - 1);
        assert(ord[i] == id);
    }
    assert forall|i: int| 0 <= i < ord.len() implies cur.spec_nodes().dom().contains(
        #[trigger] ord[i],
    ) by {
        assert(oord[i] != oord[olen - 1]);
    }
    assert forall|i: int| 0 <= i < ord.len() implies {
        let node = cur.spec_nodes()[#[trigger] ord[i]];
        &&& node.prev == (if i == 0 {
            0u64
        } else {
            ord[i - 1]
        })
        &&& node.next == (if i == ord.len() - 1 {
            0u64
        } else {
            ord[i + 1]
        })
    } by {
        if i < ord.len() - 1 {
            assert(oord[i] != oord[olen - 1]);
            assert(oord[i] != oord[olen - 2]);
            assert(cur.spec_nodes()[ord[i]] == orig.spec_nodes()[oord[i]]);
        }
    }
    assert(cur.wf());
    assert(cur@ =~= orig@.drop_last()) by {
        assert forall|i: int| 0 <= i < ord.len() implies cur.entry_at(i) == orig@[i] by {
            orig.lemma_view_index(i);
            if i < ord.len() - 1 {
                assert(oord[i] != oord[olen - 2]);
            }
        }
    }
}

/// Removes the node with id `node_id`, wherever it stands: head and tail
/// removals are delegated to the specialised operations, a middle node's
/// neighbours are spliced together. Fails with `NotFound` if no live node
/// has that id.
#[verifier::rlimit(100)]
pub fn linked_list_remove(storage: &mut QueueStorage, node_id: u64) -> (r: Result<
    (),
    ContractError,
>)
    requires
        old(storage).wf(),
    ensures
        final(storage).wf(),
        has_id(old(storage)@, node_id) ==> r == Ok::<(), ContractError>(()) && final(storage)@
            == old(storage)@.remove(index_of_id(old(storage)@, node_id)),
        !has_id(old(storage)@, node_id) ==> r == Err::<(), ContractError>(ContractError::NotFound)
            && final(storage)@ == old(storage)@,
{
    let ghost orig = *storage;
    proof {
        lemma_index_of_id(orig@, node_id);
        orig.lemma_has_id_iff_dom(node_id);
    }
    if node_id == storage.state.head_id {
        let res = linked_list_remove_head(storage);
        proof {
            if orig@.len() > 0 {
                orig.lemma_view_index(0);
                if node_id != orig.ord()[0] {
                    assert(false);
                }
                assert(index_of_id(orig@, node_id) == 0) by {
                    assert(orig@[0].id == node_id);
                }
                assert(orig@.remove(0) =~= orig@.drop_first());
            } else {
                if has_id(orig@, node_id) {
                    assert(false);
                }
            }
        }
        res
    } else if node_id == storage.state.tail_id {
        let res = linked_list_remove_tail(storage);
        proof {
            assert(orig@.len() > 0) by {
                if orig@.len() == 0 {
                    assert(node_id == 0 && orig.spec_root().head_id == 0);
                }
            }
            let last = orig@.len() - 1;
            orig.lemma_view_index(last);
            assert(orig@[last].id == node_id);
            assert(index_of_id(orig@, node_id) == last) by {
                orig.lemma_has_id_iff_dom(node_id);
                let i = index_of_id(orig@, node_id);
                orig.lemma_view_index(i);
                if i != last {
                    assert(orig.ord()[i] != orig.ord()[last]);
                }
            }
            assert(orig@.remove(last) =~= orig@.drop_last());
        }
        res
    } else {
        if !storage.nodes.contains_key(&node_id) {
            return Err(ContractError::NotFound);
        }
        let ghost i = index_of_id(orig@, node_id);
        proof {
            orig.lemma_has_id_iff_dom(node_id);
            orig.lemma_view_index(i);
            // not the head and not the tail, so strictly inside
            if orig@.len() > 0 {
                orig.lemma_view_index(0);
                orig.lemma_view_index(orig@.len() - 1);
            }
            assert(0 < i < orig@.len() - 1);
        }
        remove_middle(storage, node_id, Ghost(i))
    }
}

/// Splices the neighbours of a strictly interior node together and deletes
/// the node.
fn remove_middle(storage: &mut QueueStorage, node_id: u64, Ghost(i): Ghost<int>) -> (r: Result<
    (),
    ContractError,
>)
    requires
        old(storage).wf(),
        0 < i < old(storage)@.len() - 1,
        old(storage)@[i].id == node_id,
    ensures
        final(storage).wf(),
        r == Ok::<(), ContractError>(()),
        final(storage)@ == old(storage)@.remove(i),
{
    let ghost orig = *storage;
    proof {
        orig.lemma_view_index(i);
        orig.lemma_view_index(i - 1);
        orig.lemma_view_index(i + 1);
        assert(orig.ord()[i - 1] != orig.ord()[i + 1]);
    }
    let cur = storage.nodes.get(&node_id).unwrap().clone();
    proof {
        assert(cur == orig.nodes@[orig.ord()[i]]);
    }
    let mut next_node = storage.nodes.get(&cur.next).unwrap().clone();
    let mut prev_node = storage.nodes.get(&cur.prev).unwrap().clone();
    next_node.prev = cur.prev;
    prev_node.next = cur.next;
    storage.nodes.remove(&node_id);
    storage.state.length = storage.state.length - 1;
    storage.nodes.insert(cur.prev, prev_node);
    storage.nodes.insert(cur.next, next_node);
    storage.order = Ghost(storage.order@.remove(i));
    proof {
        let oord = orig.ord();
        assert(storage.nodes@ =~= orig.nodes@.remove(oord[i]).insert(
            orig.nodes@[oord[i]].prev,
            Node { next: orig.nodes@[oord[i]].next, ..orig.nodes@[oord[i - 1]] },
        ).insert(
            orig.nodes@[oord[i]].next,
            Node { prev: orig.nodes@[oord[i]].prev, ..orig.nodes@[oord[i + 1]] },
        ));
        lemma_remove_middle_shape(orig, *storage, i);
    }
    Ok(())
}

/// After splicing out an interior node, the queue is again well formed and
/// its content is the old content without the entry at position `i`.
#[verifier::rlimit(100)]
proof fn lemma_remove_middle_shape(orig: QueueStorage, cur: QueueStorage, i: int)
    requires
        orig.wf(),
        0 < i < orig.ord().len() - 1,
        cur.ord() == orig.ord().remove(i),
        cur.spec_root().length == orig.ord().len() - 1,
        cur.spec_root().head_id == orig.spec_root().head_id,
        cur.spec_root().tail_id == orig.spec_root().tail_id,
        cur.spec_nodes() == orig.spec_nodes().remove(orig.ord()[i]).insert(
            orig.spec_nodes()[orig.ord()[i]].prev,
            Node {
                next: orig.spec_nodes()[orig.ord()[i]].next,
                ..orig.spec_nodes()[orig.ord()[i - 1]]
            },
        ).insert(
            orig.spec_nodes()[orig.ord()[i]].next,
            Node {
                prev: orig.spec_nodes()[orig.ord()[i]].prev,
                ..orig.spec_nodes()[orig.ord()[i + 1]]
            },
        ),
    ensures
        cur.wf(),
        cur@ == orig@.remove(i),
{
    let oord = orig.ord();
    let ord = cur.ord();
    assert(ord.len() == oord.len() - 1);
    assert forall|j: int| 0 <= j < i implies #[trigger] ord[j] == oord[j] by {
        assert(oord.remove(i)[j] == oord[j]);
    }
    assert forall|j: int| i <= j < oord.len() - 1 implies #[trigger] ord[j] == oord[j + 1] by {
        assert(oord.remove(i)[j] == oord[j + 1]);
    }
    lemma_remove_middle_dom(orig, cur, i);
    lemma_splice_links(orig, cur, i);
    assert(cur.root_ok());
    assert(cur.ids_ok()) by {
        assert forall|a: int, b: int| 0 <= a < b < ord.len() implies #[trigger] ord[a]
            < #[trigger] ord[b] by {
            if b < i {
            } else if a >= i {
            } else {
                assert(ord[a] == oord[a] && ord[b] == oord[b + 1]);
            }
        }
    }
    assert(cur.wf());
    lemma_remove_middle_view(orig, cur, i);
}

/// Domain bookkeeping for [`lemma_remove_middle_shape`]: the node table
/// holds exactly the remaining ids.
#[verifier::rlimit(100)]
#[verifier::spinoff_prover]
proof fn lemma_remove_middle_dom(orig: QueueStorage, cur: QueueStorage, i: int)
    requires
        orig.wf(),
        0 < i < orig.ord().len() - 1,
        cur.ord() == orig.ord().remove(i),
        cur.spec_nodes() == orig.spec_nodes().remove(orig.ord()[i]).insert(
            orig.spec_nodes()[orig.ord()[i]].prev,
            Node {
                next: orig.spec_nodes()[orig.ord()[i]].next,
                ..orig.spec_nodes()[orig.ord()[i - 1]]
            },
        ).insert(
            orig.spec_nodes()[orig.ord()[i]].next,
            Node {
                prev: orig.spec_nodes()[orig.ord()[i]].prev,
                ..orig.spec_nodes()[orig.ord()[i + 1]]
            },
        ),
    ensures
        forall|id: u64| #[trigger] cur.spec_nodes().dom().contains(id) ==> cur.ord().contains(id),
        forall|j: int|
            0 <= j < cur.ord().len() ==> cur.spec_nodes().dom().contains(#[trigger] cur.ord()[j]),
{
    let oord = orig.ord();
    let ord = cur.ord();
    assert(ord.len() == oord.len() - 1);
    assert forall|j: int| 0 <= j < i implies #[trigger] ord[j] == oord[j] by {
        assert(oord.remove(i)[j] == oord[j]);
    }
    assert forall|j: int| i <= j < oord.len() - 1 implies #[trigger] ord[j] == oord[j + 1] by {
        assert(oord.remove(i)[j] == oord[j + 1]);
    }
    assert(orig.spec_nodes()[oord[i]].prev == oord[i - 1]);
    assert(orig.spec_nodes()[oord[i]].next == oord[i + 1]);
    assert forall|id: u64|
        #[trigger] cur.spec_nodes().dom().contains(id) implies ord.contains(id) by {
        assert(orig.spec_nodes().dom().contains(id));
        let j = choose|j: int| 0 <= j < oord.len() && oord[j] == id;
        assert(id != oord[i]);
        if j < i {
            assert(ord[j] == id);
        } else {
            assert(ord[j - 1] == id);
        }
    }
    assert forall|j: int| 0 <= j < ord.len() implies cur.spec_nodes().dom().contains(
        #[trigger] ord[j],
    ) by {
        if j < i {
            assert(oord[j] != oord[i]);
        } else {
            assert(oord[j + 1] != oord[i]);
        }
    }
}

/// Content bookkeeping for [`lemma_remove_middle_shape`]: the entries that
/// remain are the old entries with position `i` taken out.
#[verifier::rlimit(100)]
#[verifier::spinoff_prover]
proof fn lemma_remove_middle_view(orig: QueueStorage, cur: QueueStorage, i: int)
    requires
        orig.wf(),
        0 < i < orig.ord().len() - 1,
        cur.ord() == orig.ord().remove(i),
        cur.spec_nodes() == orig.spec_nodes().remove(orig.ord()[i]).insert(
            orig.spec_nodes()[orig.ord()[i]].prev,
            Node {
                next: orig.spec_nodes()[orig.ord()[i]].next,
                ..orig.spec_nodes()[orig.ord()[i - 1]]
            },
        ).insert(
            orig.spec_nodes()[orig.ord()[i]].next,
            Node {
                prev: orig.spec_nodes()[orig.ord()[i]].prev,
                ..orig.spec_nodes()[orig.ord()[i + 1]]
            },
        ),
    ensures
        cur@ == orig@.remove(i),
{
    let oord = orig.ord();
    let ord = cur.ord();
    assert(ord.len() == oord.len() - 1);
    assert forall|j: int| 0 <= j < i implies #[trigger] ord[j] == oord[j] by {
        assert(oord.remove(i)[j] == oord[j]);
    }
    assert forall|j: int| i <= j < oord.len() - 1 implies #[trigger] ord[j] == oord[j + 1] by {
        assert(oord.remove(i)[j] == oord[j + 1]);
    }
    assert(orig.spec_nodes()[oord[i]].prev == oord[i - 1]);
    assert(orig.spec_nodes()[oord[i]].next == oord[i + 1]);
    assert(orig@.remove(i).len() == oord.len() - 1);
    assert forall|j: int| 0 <= j < i implies #[trigger] orig@.remove(i)[j] == orig@[j] by {}
    assert forall|j: int| i <= j < oord.len() - 1 implies #[trigger] orig@.remove(i)[j]
        == orig@[j + 1] by {}
    assert(cur@ =~= orig@.remove(i)) by {
        assert forall|j: int| 0 <= j < ord.len() implies cur.entry_at(j) == orig@.remove(i)[j] by {
            if j < i {
                orig.lemma_view_index(j);
                if j == i - 1 {
                } else {
                    assert(oord[j] != oord[i - 1] && oord[j] != oord[i + 1]);
                }
            } else {
                orig.lemma_view_index(j + 1);
                if j == i {
                } else {
                    assert(oord[j + 1] != oord[i - 1] && oord[j + 1] != oord[i + 1]);
                }
            }
        }
    }
}

/// After splicing out the interior node at position `i`, every remaining
/// node's links again point at its neighbours.
#[verifier::rlimit(100)]
#[verifier::spinoff_prover]
proof fn lemma_splice_links(orig: QueueStorage, cur: QueueStorage, i: int)
    requires
        orig.wf(),
        0 < i < orig.ord().len() - 1,
        cur.ord() == orig.ord().remove(i),
        cur.spec_nodes() == orig.spec_nodes().remove(orig.ord()[i]).insert(
            orig.spec_nodes()[orig.ord()[i]].prev,
            Node {
                next: orig.spec_nodes()[orig.ord()[i]].next,
                ..orig.spec_nodes()[orig.ord()[i - 1]]
            },
        ).insert(
            orig.spec_nodes()[orig.ord()[i]].next,
            Node {
                prev: orig.spec_nodes()[orig.ord()[i]].prev,
                ..orig.spec_nodes()[orig.ord()[i + 1]]
            },
        ),
    ensures
        cur.links_ok(),
{
    let oord = orig.ord();
    let ord = cur.ord();
    let nodes = cur.spec_nodes();
    let olen = oord.len() as int;
    assert(ord.len() == oord.len() - 1);
    assert forall|j: int| 0 <= j < i implies #[trigger] ord[j] == oord[j] by {
        assert(oord.remove(i)[j] == oord[j]);
    }
    assert forall|j: int| i <= j < oord.len() - 1 implies #[trigger] ord[j] == oord[j + 1] by {
        assert(oord.remove(i)[j] == oord[j + 1]);
    }
    assert(orig.spec_nodes()[oord[i]].prev == oord[i - 1]);
    assert(orig.spec_nodes()[oord[i]].next == oord[i + 1]);
    assert forall|j: int| 0 <= j < i - 1 implies nodes[#[trigger] ord[j]] == orig.spec_nodes()[
        oord[j]
    ] by {
        assert(oord[j] != oord[i - 1] && oord[j] != oord[i + 1] && oord[j] != oord[i]);
    }
    assert forall|j: int| i < j < ord.len() implies nodes[#[trigger] ord[j]]
        == orig.spec_nodes()[oord[j + 1]] by {
        assert(oord[j + 1] != oord[i - 1] && oord[j + 1] != oord[i + 1] && oord[j + 1] != oord[i]);
    }
    assert(nodes[ord[i - 1]].next == oord[i + 1]);
    assert(nodes[ord[i - 1]].prev == orig.spec_nodes()[oord[i - 1]].prev);
    assert(nodes[ord[i]].prev == oord[i - 1]);
    assert(nodes[ord[i]].next == orig.spec_nodes()[oord[i + 1]].next);
    assert forall|j: int| 0 <= j < ord.len() implies {
        let node = nodes[#[trigger] ord[j]];
        &&& node.prev == (if j == 0 {
            0u64
        } else {
            ord[j - 1]
        })
        &&& node.next == (if j == ord.len() - 1 {
            0u64
        } else {
            ord[j + 1]
        })
    } by {
        if j < i - 1 {
            assert(nodes[ord[j]] == orig.spec_nodes()[oord[j]]);
        } else if j == i - 1 {
            assert(ord[j] == oord[i - 1]);
        } else if j == i {
            assert(ord[j] == oord[i + 1]);
        } else {
            assert(nodes[ord[j]] == orig.spec_nodes()[oord[j + 1]]);
        }
    }
}

/// Overwrites the value of the node with id `node_id`, leaving linkage and
/// every other node untouched. Fails with `NotFound` if the id is not live.
#[verifier::rlimit(100)]
pub fn node_update_value(storage: &mut QueueStorage, node_id: u64, value: u128) -> (r: Result<
    (),
    ContractError,
>)
    requires
        old(storage).wf(),
    ensures
        final(storage).wf(),
        has_id(old(storage)@, node_id) ==> r == Ok::<(), ContractError>(()) && final(storage)@
            == old(storage)@.update(
            index_of_id(old(storage)@, node_id),
            QueueEntry { value, ..old(storage)@[index_of_id(old(storage)@, node_id)] },
        ),
        !has_id(old(storage)@, node_id) ==> r == Err::<(), ContractError>(ContractError::NotFound)
            && final(storage)@ == old(storage)@,
{
    let ghost orig = *storage;
    proof {
        orig.lemma_has_id_iff_dom(node_id);
    }
    match storage.nodes.get(&node_id) {
        None => Err(ContractError::NotFound),
        Some(cur_ref) => {
            let mut cur_node = cur_ref.clone();
            cur_node.value = value;
            storage.nodes.insert(node_id, cur_node);
            let ghost i = index_of_id(orig@, node_id);
            proof {
                orig.lemma_view_index(i);
                assert(storage.ord() == orig.ord());
                assert(storage.nodes@.dom() =~= orig.nodes@.dom());
                assert(storage.wf()) by {
                    assert forall|j: int| 0 <= j < storage.ord().len() implies {
                        let node = storage.nodes@[#[trigger] storage.ord()[j]];
                        &&& node.prev == (if j == 0 {
                            0u64
                        } else {
                            storage.ord()[j - 1]
                        })
                        &&& node.next == (if j == storage.ord().len() - 1 {
                            0u64
                        } else {
                            storage.ord()[j + 1]
                        })
                    } by {
                        if storage.ord()[j] != node_id {
                            assert(storage.nodes@[storage.ord()[j]] == orig.nodes@[orig.ord()[j]]);
                        }
                    }
                }
                assert(storage@ =~= orig@.update(i, QueueEntry { value, ..orig@[i] })) by {
                    assert forall|j: int| 0 <= j < storage@.len() implies storage.entry_at(j)
                        == orig@.update(i, QueueEntry { value, ..orig@[i] })[j] by {
                        orig.lemma_view_index(j);
                        if j != i {
                            assert(orig.ord()[j] != orig.ord()[i]);
                        }
                    }
                }
            }
            Ok(())
        },
    }
}

/// A read-only snapshot of the first `count` nodes (or all of them, if the
/// queue is shorter), head first, each with its id.
#[verifier::rlimit(100)]
pub fn linked_list_get_list(storage: &QueueStorage, count: u64) -> (r: Result<
    Vec<NodeWithId>,
    ContractError,
>)
    requires
        storage.wf(),
    ensures
        r matches Ok(list) && {
            let n = if count > storage@.len() {
                storage@.len() as int
            } else {
                count as int
            };
            &&& list@.len() == n
            &&& forall|i: int|
                0 <= i < n ==> {
                    let e = #[trigger] list@[i];
                    &&& e.id == storage@[i].id
                    &&& e.info.receiver@ == storage@[i].receiver
                    &&& e.info.value == storage@[i].value
                    &&& e.info.height == storage@[i].height
                    &&& e.info.prev == (if i == 0 {
                        0u64
                    } else {
                        storage@[i - 1].id
                    })
                    &&& e.info.next == (if i == storage@.len() - 1 {
                        0u64
                    } else {
                        storage@[i + 1].id
                    })
                }
        },
{
    let mut queue_list: Vec<NodeWithId> = Vec::new();
    if storage.state.length > 0 {
        let n = if count > storage.state.length {
            storage.state.length
        } else {
            count
        };
        let mut node_id = storage.state.head_id;
        let mut index: u64 = 0;
        proof {
            storage.lemma_view_index(0);
        }
        while index < n
            invariant
                0 <= index <= n,
                n <= storage.ord().len(),
                node_id == (if index < storage.ord().len() {
                    storage.ord()[index as int]
                } else {
                    0u64
                }),
                queue_list@.len() == index,
                forall|i: int|
                    0 <= i < index ==> {
                        let e = #[trigger] queue_list@[i];
                        &&& e.id == storage@[i].id
                        &&& e.info.receiver@ == storage@[i].receiver
                        &&& e.info.value == storage@[i].value
                        &&& e.info.height == storage@[i].height
                        &&& e.info.prev == (if i == 0 {
                            0u64
                        } else {
                            storage@[i - 1].id
                        })
                        &&& e.info.next == (if i == storage@.len() - 1 {
                            0u64
                        } else {
                            storage@[i + 1].id
                        })
                    },
            decreases n - index,
        {
            proof {
                storage.lemma_view_index(index as int);
                if index + 1 < storage.ord().len() {
                    storage.lemma_view_index(index as int + 1);
                }
                if index as int > 0 {
                    storage.lemma_view_index(index as int - 1);
                }
            }
            let cur_node = storage.nodes.get(&node_id).unwrap().clone();
            let new_node_id = cur_node.next;
            queue_list.push(NodeWithId { id: node_id, info: cur_node });
            node_id = new_node_id;
            index = index + 1;
        }
    }
    Ok(queue_list)
}

/// The ids visited by following `next` links from `start`, up to `fuel`
/// steps, stopping at the sentinel `0` or at a missing node.
pub open spec fn chain_forward(nodes: Map<u64, Node>, start: u64, fuel: nat) -> Seq<u64>
    decreases fuel,
{
    if fuel == 0 || start == 0 || !nodes.dom().contains(start) {
        Seq::empty()
    } else {
        seq![start] + chain_forward(nodes, nodes[start].next, (fuel - 1) as nat)
    }
}

/// The ids visited by following `prev` links from `start`, up to `fuel`
/// steps, stopping at the sentinel `0` or at a missing node.
pub open spec fn chain_backward(nodes: Map<u64, Node>, start: u64, fuel: nat) -> Seq<u64>
    decreases fuel,
{
    if fuel == 0 || start == 0 || !nodes.dom().contains(start) {
        Seq::empty()
    } else {
        seq![start] + chain_backward(nodes, nodes[start].prev, (fuel - 1) as nat)
    }
}

impl QueueStorage {
    #[verifier::rlimit(100)]
    #[verifier::spinoff_prover]
    proof fn lemma_chain_forward_from(self, k: int)
        requires
            self.wf(),
            0 <= k <= self.ord().len(),
        ensures
            chain_forward(
                self.spec_nodes(),
                if k == self.ord().len() {
                    0u64
                } else {
                    self.ord()[k]
                },
                (self.ord().len() - k) as nat,
            ) =~= self.ord().subrange(k, self.ord().len() as int),
        decreases self.ord().len() - k,
    {
        if k < self.ord().len() {
            self.lemma_chain_forward_from(k + 1);
            let len = self.ord().len() as int;
            let id = self.ord()[k];
            let next = if k + 1 == len {
                0u64
            } else {
                self.ord()[k + 1]
            };
            assert(self.spec_nodes().dom().contains(id));
            assert(self.spec_nodes()[id].next == next);
            assert(chain_forward(self.spec_nodes(), id, (len - k) as nat) == seq![id]
                + chain_forward(self.spec_nodes(), next, (len - k - 1) as nat));
            assert(seq![id] + self.ord().subrange(k + 1, len) =~= self.ord().subrange(k, len));
        }
    }

    #[verifier::rlimit(100)]
    #[verifier::spinoff_prover]
    proof fn lemma_chain_backward_from(self, k: int)
        requires
            self.wf(),
            -1 <= k < self.ord().len(),
        ensures
            chain_backward(
                self.spec_nodes(),
                if k < 0 {
                    0u64
                } else {
                    self.ord()[k]
                },
                (k + 1) as nat,
            ) =~= self.ord().subrange(0, k + 1).reverse(),
        decreases k + 1,
    {
        if k >= 0 {
            self.lemma_chain_backward_from(k - 1);
            let id = self.ord()[k];
            let prev = if k == 0 {
                0u64
            } else {
                self.ord()[k - 1]
            };
            assert(self.spec_nodes().dom().contains(id));
            assert(self.spec_nodes()[id].prev == prev);
            assert(chain_backward(self.spec_nodes(), id, (k + 1) as nat) == seq![id]
                + chain_backward(self.spec_nodes(), prev, k as nat));
            assert(seq![id] + self.ord().subrange(0, k).reverse() =~= self.ord().subrange(
                0,
                k + 1,
            ).reverse());
        }
    }
}

/// Queue consistency: walking forward from the head via `next` visits
/// exactly `length` nodes and ends at the tail, whose `next` is the
/// sentinel; walking backward from the tail via `prev` visits the same
/// nodes in reverse order and ends at the head, whose `prev` is the
/// sentinel.
pub proof fn lemma_queue_consistency(storage: QueueStorage)
    requires
        storage.wf(),
    ensures
        ({
            let root = storage.spec_root();
            let fwd = chain_forward(storage.spec_nodes(), root.head_id, root.length as nat);
            let bwd = chain_backward(storage.spec_nodes(), root.tail_id, root.length as nat);
            &&& fwd.len() == root.length
            &&& bwd.len() == root.length
            &&& forall|i: int| 0 <= i < root.length ==> #[trigger] fwd[i] == storage@[i].id
            &&& forall|i: int|
                0 <= i < root.length ==> #[trigger] bwd[i] == storage@[root.length - 1 - i].id
            &&& root.length > 0 ==> fwd.last() == root.tail_id && storage.spec_nodes()[
                root.tail_id
            ].next == 0
            &&& root.length > 0 ==> bwd.last() == root.head_id && storage.spec_nodes()[
                root.head_id
            ].prev == 0
        }),
{
    let len = storage.ord().len() as int;
    storage.lemma_chain_forward_from(0);
    assert(storage.ord().subrange(0, len) =~= storage.ord());
    storage.lemma_chain_backward_from(len - 1);
    assert forall|i: int| 0 <= i < len implies #[trigger] chain_forward(
        storage.spec_nodes(),
        storage.spec_root().head_id,
        storage.spec_root().length as nat,
    )[i] == storage@[i].id by {
        storage.lemma_view_index(i);
    }
    assert forall|i: int| 0 <= i < len implies #[trigger] chain_backward(
        storage.spec_nodes(),
        storage.spec_root().tail_id,
        storage.spec_root().length as nat,
    )[i] == storage@[len - 1 - i].id by {
        storage.lemma_view_index(len - 1 - i);
        assert(storage.ord().subrange(0, len).reverse()[i] == storage.ord()[len - 1 - i]);
    }
    if len > 0 {
        storage.lemma_view_index(len - 1);
        storage.lemma_view_index(0);
    }
}

/// Every live node's id is positive: `0` stays free as the sentinel.
pub proof fn lemma_ids_positive(storage: QueueStorage)
    requires
        storage.wf(),
    ensures
        forall|i: int| 0 <= i < storage@.len() ==> #[trigger] storage@[i].id >= 1,
{
    assert forall|i: int| 0 <= i < storage@.len() implies #[trigger] storage@[i].id >= 1 by {
        storage.lemma_view_index(i);
    }
}

/// When no earlier entry shares its id, position `j` is where the id is
/// found.
pub proof fn lemma_index_of_at(q: Seq<QueueEntry>, j: int)
    requires
        0 <= j < q.len(),
        forall|i: int| 0 <= i < j ==> q[i].id != q[j].id,
    ensures
        index_of_id(q, q[j].id) == j,
    decreases j,
{
    if j > 0 {
        assert forall|i: int| 0 <= i < j - 1 implies #[trigger] q.drop_first()[i].id
            != q.drop_first()[j - 1].id by {
            assert(q[i + 1].id != q[j].id);
        }
        lemma_index_of_at(q.drop_first(), j - 1);
    }
}

/// Two queues whose entries carry the same ids position by position agree
/// on where any id is found.
pub proof fn lemma_index_of_same_ids(q: Seq<QueueEntry>, q2: Seq<QueueEntry>, id: u64)
    requires
        q.len() == q2.len(),
        forall|k: int| 0 <= k < q.len() ==> #[trigger] q[k].id == q2[k].id,
    ensures
        index_of_id(q, id) == index_of_id(q2, id),
    decreases q.len(),
{
    if q.len() > 0 {
        assert(q[0].id == q2[0].id);
        assert forall|k: int| 0 <= k < q.drop_first().len() implies #[trigger] q.drop_first()[
            k
        ].id == q2.drop_first()[k].id by {
            assert(q[k + 1].id == q2[k + 1].id);
        }
        lemma_index_of_same_ids(q.drop_first(), q2.drop_first(), id);
    }
}

/// No two live nodes share an id: ids increase strictly from head to tail.
/// Together with the id that `linked_list_append` promises for a new node,
/// this keeps every live id unique however appends and removals interleave.
pub proof fn lemma_ids_strictly_increasing(storage: QueueStorage)
    requires
        storage.wf(),
    ensures
        forall|i: int, j: int|
            0 <= i < j < storage@.len() ==> #[trigger] storage@[i].id < #[trigger] storage@[j].id,
{
    assert forall|i: int, j: int| 0 <= i < j < storage@.len() implies #[trigger] storage@[i].id
        < #[trigger] storage@[j].id by {
        storage.lemma_view_index(i);
        storage.lemma_view_index(j);
    }
}

} // verus!
