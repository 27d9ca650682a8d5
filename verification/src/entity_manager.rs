//! Entity registry: recyclable identities backed by a free-list, per-entity
//! records, parent/child hierarchy maintenance that keeps the forest acyclic,
//! and a dirty queue of entities whose state changed since it was last
//! drained.
//!
//! Acyclicity is witnessed by a ghost ranking that assigns every entity a
//! depth strictly greater than its parent's, so walking parent pointers from
//! any entity terminates.

use vstd::prelude::*;
use vstd::std_specs::vec::vec_index_mut;

use crate::archetype::Archetype;
use crate::entity::Entity;
use crate::entity_data::EntityData;

verus! {

/// Starting at id `x` in the slot sequence `s` and following parent
/// pointers at most `k` times reaches id `a`.
pub open spec fn reaches_in(s: Seq<Option<EntityData>>, x: int, a: int, k: nat) -> bool
    decreases k,
{
    x == a || (k > 0 && 0 <= x < s.len() && s[x] is Some && (s[x]->0.parent matches Some(p)
        && reaches_in(s, p.0 as int, a, (k - 1) as nat)))
}

/// The number of live slots in a slot sequence.
pub open spec fn count_alive(s: Seq<Option<EntityData>>) -> nat
    decreases s.len(),
{
    if s.len() == 0 {
        0
    } else {
        count_alive(s.drop_last()) + if s.last() is Some {
            1nat
        } else {
            0nat
        }
    }
}

/// Equal slot sequences have the same live count.
proof fn lemma_count_alive_congruence(s1: Seq<Option<EntityData>>, s2: Seq<Option<EntityData>>)
    requires
        s1 =~= s2,
    ensures
        count_alive(s1) == count_alive(s2),
{
}

/// Killing one live slot strictly lowers the live count.
proof fn lemma_count_alive_update(s: Seq<Option<EntityData>>, i: int)
    requires
        0 <= i < s.len(),
        s[i] is Some,
    ensures
        count_alive(s.update(i, None)) < count_alive(s),
    decreases s.len(),
{
    let s2 = s.update(i, None);
    if i == s.len() - 1 {
        assert(s2.drop_last() =~= s.drop_last());
        lemma_count_alive_congruence(s2.drop_last(), s.drop_last());
    } else {
        assert(s2.drop_last() =~= s.drop_last().update(i, None));
        lemma_count_alive_congruence(s2.drop_last(), s.drop_last().update(i, None));
        lemma_count_alive_update(s.drop_last(), i);
        assert(s2.last() == s.last());
    }
}

/// The entity registry.
pub struct EntityManager {
    /// Per-id slot: `Some` exactly for live entities.
    pub sparse: Vec<Option<EntityData>>,
    /// Cleared records of destroyed entities, reused LIFO by `spawn`.
    pub destroyed: Vec<EntityData>,
    /// The dirty queue; entries at `cursor` and beyond are still pending.
    pub queue: Vec<Entity>,
    /// Next queue entry to hand out.
    pub cursor: usize,
    /// Per-id flag: the entity is pending in the queue.
    pub queued: Vec<bool>,
    /// Ghost ranking: strictly decreasing along parent edges.
    pub depth: Ghost<Map<int, nat>>,
}

/// Two registries with the same slots, free list and ranking satisfy the
/// same record-level invariants; only the queue fields may differ.
proof fn lemma_wf_core_same_records(a: EntityManager, b: EntityManager)
    requires
        a.wf_records(),
        a.wf_free(),
        a.wf_hier(),
        a.wf_depth(),
        b.sparse == a.sparse,
        b.destroyed == a.destroyed,
        b.depth == a.depth,
    ensures
        b.wf_records(),
        b.wf_free(),
        b.wf_hier(),
        b.wf_depth(),
{
    assert(b.sparse@ == a.sparse@);
    assert(b.destroyed@ == a.destroyed@);
    assert forall|i: int| 0 <= i < a.sparse@.len() implies b.sparse@[i] == a.sparse@[i] by {}
    assert forall|i: int|
        #![trigger b.spec_record_id(i)]
        b.spec_alive_id(i) implies {
        &&& (b.spec_record_id(i).parent matches Some(p) ==> {
            &&& p.0 != i
            &&& b.spec_alive(p)
            &&& b.spec_record(p).spec_has_child(b.spec_record_id(i).owner)
            &&& b.depth@[p.0 as int] < b.depth@[i]
        })
        &&& forall|c: Entity|
            #![trigger b.spec_record_id(i).spec_has_child(c)]
            b.spec_record_id(i).spec_has_child(c) ==> {
                &&& c.0 != i
                &&& b.spec_alive(c)
                &&& b.spec_record(c).parent == Some(b.spec_record_id(i).owner)
            }
    } by {
        assert(a.spec_alive_id(i));
        assert(b.spec_record_id(i) == a.spec_record_id(i));
        if a.spec_record_id(i).parent is Some {
            let p = a.spec_record_id(i).parent->0;
            assert(a.spec_alive(p));
            assert(b.spec_record(p) == a.spec_record(p));
        }
        assert forall|c: Entity|
            #![trigger b.spec_record_id(i).spec_has_child(c)]
            b.spec_record_id(i).spec_has_child(c) implies {
            &&& c.0 != i
            &&& b.spec_alive(c)
            &&& b.spec_record(c).parent == Some(b.spec_record_id(i).owner)
        } by {
            assert(a.spec_record_id(i).spec_has_child(c));
            assert(a.spec_alive(c));
            assert(b.spec_record(c) == a.spec_record(c));
        }
    }
}

/// Replacing one live record with one that keeps its owner, parent and child
/// arrays (only its archetype's bits or flags may differ) preserves the
/// record-level invariants.
proof fn lemma_wf_after_record_surgery(a: EntityManager, b: EntityManager, e: Entity)
    requires
        a.wf(),
        a.spec_alive(e),
        b.sparse@.len() == a.sparse@.len(),
        forall|i: int| 0 <= i < a.sparse@.len() && i != e.0 ==> b.sparse@[i] == a.sparse@[i],
        b.spec_alive(e),
        b.spec_record(e).owner == a.spec_record(e).owner,
        b.spec_record(e).parent == a.spec_record(e).parent,
        b.spec_record(e).sparse == a.spec_record(e).sparse,
        b.spec_record(e).dense == a.spec_record(e).dense,
        b.spec_record(e).wf(),
        b.destroyed == a.destroyed,
        b.depth == a.depth,
    ensures
        b.wf_records(),
        b.wf_free(),
        b.wf_hier(),
        b.wf_depth(),
        forall|x: Entity| b.spec_alive(x) == a.spec_alive(x),
{
    assert(b.destroyed@ == a.destroyed@);
    assert forall|x: Entity| b.spec_alive(x) == a.spec_alive(x) by {
        if x.0 != e.0 && x.0 < a.sparse@.len() {
            assert(b.sparse@[x.0 as int] == a.sparse@[x.0 as int]);
        }
    }
    assert forall|c: Entity|
        b.spec_record(e).spec_has_child(c) == a.spec_record(e).spec_has_child(c) by {
        assert(b.spec_record(e).sparse@ == a.spec_record(e).sparse@);
    }
    assert(b.wf_records());
    assert(b.wf_free());
    assert forall|i: int|
        #![trigger b.spec_record_id(i)]
        b.spec_alive_id(i) implies {
        &&& (b.spec_record_id(i).parent matches Some(p) ==> {
            &&& p.0 != i
            &&& b.spec_alive(p)
            &&& b.spec_record(p).spec_has_child(b.spec_record_id(i).owner)
            &&& b.depth@[p.0 as int] < b.depth@[i]
        })
        &&& forall|c: Entity|
            #![trigger b.spec_record_id(i).spec_has_child(c)]
            b.spec_record_id(i).spec_has_child(c) ==> {
                &&& c.0 != i
                &&& b.spec_alive(c)
                &&& b.spec_record(c).parent == Some(b.spec_record_id(i).owner)
            }
    } by {
        assert(a.spec_alive_id(i));
        assert(b.spec_record_id(i).parent == a.spec_record_id(i).parent);
        assert(b.spec_record_id(i).owner == a.spec_record_id(i).owner);
        if a.spec_record_id(i).parent is Some {
            let p = a.spec_record_id(i).parent->0;
            assert(a.spec_alive(p));
            if p.0 == e.0 {
                assert(b.spec_record(p).spec_has_child(a.spec_record_id(i).owner));
            } else {
                assert(b.spec_record(p) == a.spec_record(p));
            }
        }
        assert forall|c: Entity|
            #![trigger b.spec_record_id(i).spec_has_child(c)]
            b.spec_record_id(i).spec_has_child(c) implies {
            &&& c.0 != i
            &&& b.spec_alive(c)
            &&& b.spec_record(c).parent == Some(b.spec_record_id(i).owner)
        } by {
            assert(a.spec_record_id(i).spec_has_child(c)) by {
                if i == e.0 {
                    assert(b.spec_record(e).spec_has_child(c) == a.spec_record(e).spec_has_child(
                        c,
                    ));
                } else {
                    assert(b.spec_record_id(i) == a.spec_record_id(i));
                }
            }
            assert(a.spec_alive(c));
            if c.0 == e.0 {
                assert(b.spec_record(c).parent == a.spec_record(c).parent);
            } else {
                assert(b.spec_record(c) == a.spec_record(c));
            }
        }
    }
    assert(b.wf_hier());
    assert(b.wf_depth());
}

/// Removing one parent/child edge (the child's parent cleared, the child
/// dropped from the parent's child set) preserves the record-level
/// invariants.
proof fn lemma_wf_after_unbind(a: EntityManager, b: EntityManager, child: Entity, q: Entity)
    requires
        a.wf(),
        a.spec_alive(child),
        a.spec_record(child).parent == Some(q),
        b.sparse@.len() == a.sparse@.len(),
        forall|i: int|
            0 <= i < a.sparse@.len() && i != child.0 && i != q.0 ==> b.sparse@[i] == a.sparse@[i],
        b.spec_alive(child),
        b.spec_alive(q),
        b.spec_record(child).owner == a.spec_record(child).owner,
        b.spec_record(child).parent is None,
        b.spec_record(child).sparse == a.spec_record(child).sparse,
        b.spec_record(child).dense == a.spec_record(child).dense,
        b.spec_record(child).wf(),
        b.spec_record(q).owner == a.spec_record(q).owner,
        b.spec_record(q).parent == a.spec_record(q).parent,
        forall|c: Entity|
            b.spec_record(q).spec_has_child(c) == (a.spec_record(q).spec_has_child(c) && c
                != child),
        b.spec_record(q).wf(),
        b.destroyed == a.destroyed,
        b.depth == a.depth,
    ensures
        b.wf_records(),
        b.wf_free(),
        b.wf_hier(),
        b.wf_depth(),
        forall|x: Entity| b.spec_alive(x) == a.spec_alive(x),
{
    assert(a.spec_alive_id(child.0 as int));
    assert(a.spec_record_id(child.0 as int) == a.spec_record(child));
    assert(a.spec_record_id(child.0 as int).parent matches Some(pp) && pp == q);
    assert(q.0 != child.0);
    assert(a.spec_alive(q));
    assert(b.destroyed@ == a.destroyed@);
    assert forall|x: Entity| b.spec_alive(x) == a.spec_alive(x) by {
        if x.0 != child.0 && x.0 != q.0 && x.0 < a.sparse@.len() {
            assert(b.sparse@[x.0 as int] == a.sparse@[x.0 as int]);
        }
    }
    assert forall|c: Entity|
        b.spec_record(child).spec_has_child(c) == a.spec_record(child).spec_has_child(c) by {
        assert(b.spec_record(child).sparse@ == a.spec_record(child).sparse@);
    }
    assert(b.wf_records());
    assert(b.wf_free());
    assert forall|i: int|
        #![trigger b.spec_record_id(i)]
        b.spec_alive_id(i) implies {
        &&& (b.spec_record_id(i).parent matches Some(p) ==> {
            &&& p.0 != i
            &&& b.spec_alive(p)
            &&& b.spec_record(p).spec_has_child(b.spec_record_id(i).owner)
            &&& b.depth@[p.0 as int] < b.depth@[i]
        })
        &&& forall|c: Entity|
            #![trigger b.spec_record_id(i).spec_has_child(c)]
            b.spec_record_id(i).spec_has_child(c) ==> {
                &&& c.0 != i
                &&& b.spec_alive(c)
                &&& b.spec_record(c).parent == Some(b.spec_record_id(i).owner)
            }
    } by {
        assert(a.spec_alive_id(i));
        let a_rec = a.spec_record_id(i);
        let b_rec = b.spec_record_id(i);
        assert(b_rec.owner == a_rec.owner);
        if b_rec.parent is Some {
            let p = b_rec.parent->0;
            assert(b_rec.parent == a_rec.parent);
            assert(a.spec_alive(p));
            assert(p.0 != i);
            if p.0 == child.0 {
                // the parent's record kept its child set
                assert(b.spec_record(p).spec_has_child(a_rec.owner) == a.spec_record(p).spec_has_child(a_rec.owner));
            } else if p.0 == q.0 {
                // i is not the unbound child, so it survives in q's child set
                assert(a_rec.owner.0 == i);
                assert(i != child.0 ==> a_rec.owner != child);
                if i == child.0 {
                    assert(b_rec.parent is None);
                }
                assert(b.spec_record(p).spec_has_child(a_rec.owner));
            } else {
                assert(b.spec_record(p) == a.spec_record(p));
            }
            assert(b.depth@[p.0 as int] < b.depth@[i]);
        }
        assert forall|c: Entity|
            #![trigger b.spec_record_id(i).spec_has_child(c)]
            b.spec_record_id(i).spec_has_child(c) implies {
            &&& c.0 != i
            &&& b.spec_alive(c)
            &&& b.spec_record(c).parent == Some(b.spec_record_id(i).owner)
        } by {
            assert(a.spec_record_id(i).spec_has_child(c)) by {
                if i == child.0 {
                    assert(b.spec_record(child).spec_has_child(c) == a.spec_record(child).spec_has_child(c));
                } else if i == q.0 {
                } else {
                    assert(b.spec_record_id(i) == a.spec_record_id(i));
                }
            }
            assert(a.spec_alive(c));
            assert(c.0 != i);
            assert(a.spec_record(c).parent == Some(a_rec.owner));
            if c.0 == child.0 {
                // c's parent in a is i's owner; but child's parent in a is q,
                // so i must be q, and q no longer lists child
                assert(a.spec_record(child).parent == Some(q));
                assert(a_rec.owner == q);
                assert(i == q.0);
                assert(!b.spec_record_id(i).spec_has_child(c));
                assert(false);
            } else if c.0 == q.0 {
                assert(b.spec_record(c).parent == a.spec_record(c).parent);
            } else {
                assert(b.spec_record(c) == a.spec_record(c));
            }
        }
    }
    assert(b.wf_hier());
    assert(b.wf_depth());
}

/// A reachability chain can be extended by one parent step at its far end.
proof fn lemma_reaches_extend(m: EntityManager, x: int, a: int, k: nat)
    requires
        m.spec_reaches(x, a, k),
        m.spec_alive_id(a),
        m.spec_record_id(a).parent is Some,
    ensures
        m.spec_reaches(x, (m.spec_record_id(a).parent->0).0 as int, (k + 1) as nat),
    decreases k,
{
    let b = (m.spec_record_id(a).parent->0).0 as int;
    if x == a {
        assert(reaches_in(m.sparse@, b, b, k));
        assert(reaches_in(m.sparse@, x, b, (k + 1) as nat));
    } else {
        let p = m.spec_record_id(x).parent->0;
        lemma_reaches_extend(m, p.0 as int, a, (k - 1) as nat);
        assert(reaches_in(m.sparse@, x, b, (k + 1) as nat));
    }
}

/// Reachability to `c` is unaffected by changing `c`'s own parent link or
/// any child set: it depends only on the parent links of nodes other than
/// `c`.
proof fn lemma_reach_to_c_same(a: EntityManager, b: EntityManager, c: int, x: int, k: nat)
    requires
        forall|i: int| a.spec_alive_id(i) == b.spec_alive_id(i),
        forall|i: int|
            i != c && a.spec_alive_id(i) ==> (#[trigger] b.spec_record_id(i)).parent
                == a.spec_record_id(i).parent,
        a.spec_reaches(x, c, k),
    ensures
        b.spec_in_subtree(x, c),
    decreases k,
{
    if x == c {
        assert(b.spec_reaches(x, c, 0));
    } else {
        let p = a.spec_record_id(x).parent->0;
        lemma_reach_to_c_same(a, b, c, p.0 as int, (k - 1) as nat);
        let k2 = choose|k2: nat| b.spec_reaches(p.0 as int, c, k2);
        assert(a.spec_alive_id(x));
        assert(b.spec_alive_id(x));
        assert(b.spec_record_id(x).parent == a.spec_record_id(x).parent);
        assert(reaches_in(b.sparse@, p.0 as int, c, k2));
        assert(reaches_in(b.sparse@, x, c, (k2 + 1) as nat));
        assert(b.spec_reaches(x, c, (k2 + 1) as nat));
    }
}

/// Adding one parent/child edge from `child` (previously a root) to `parent`
/// preserves the record-level invariants other than the ranking.
proof fn lemma_wf_after_link(a: EntityManager, b: EntityManager, child: Entity, parent: Entity)
    requires
        a.wf_records(),
        a.wf_free(),
        a.wf_hier(),
        a.spec_alive(child),
        a.spec_alive(parent),
        parent != child,
        a.spec_record(child).parent is None,
        b.sparse@.len() == a.sparse@.len(),
        forall|i: int|
            0 <= i < a.sparse@.len() && i != child.0 && i != parent.0 ==> b.sparse@[i]
                == a.sparse@[i],
        b.spec_alive(child),
        b.spec_alive(parent),
        b.spec_record(child).owner == a.spec_record(child).owner,
        b.spec_record(child).parent == Some(parent),
        b.spec_record(child).sparse == a.spec_record(child).sparse,
        b.spec_record(child).dense == a.spec_record(child).dense,
        b.spec_record(child).wf(),
        b.spec_record(parent).owner == a.spec_record(parent).owner,
        b.spec_record(parent).parent == a.spec_record(parent).parent,
        forall|c: Entity|
            b.spec_record(parent).spec_has_child(c) == (a.spec_record(parent).spec_has_child(c)
                || c == child),
        b.spec_record(parent).wf(),
        b.destroyed == a.destroyed,
    ensures
        b.wf_records(),
        b.wf_free(),
        b.wf_hier(),
        forall|x: Entity| b.spec_alive(x) == a.spec_alive(x),
{
    assert(b.destroyed@ == a.destroyed@);
    assert forall|x: Entity| b.spec_alive(x) == a.spec_alive(x) by {
        if x.0 != child.0 && x.0 != parent.0 && x.0 < a.sparse@.len() {
            assert(b.sparse@[x.0 as int] == a.sparse@[x.0 as int]);
        }
    }
    assert forall|c: Entity|
        b.spec_record(child).spec_has_child(c) == a.spec_record(child).spec_has_child(c) by {
        assert(b.spec_record(child).sparse@ == a.spec_record(child).sparse@);
    }
    assert(b.wf_records());
    assert(b.wf_free());
    assert forall|i: int|
        #![trigger b.spec_record_id(i)]
        b.spec_alive_id(i) implies {
        &&& (b.spec_record_id(i).parent matches Some(p) ==> {
            &&& p.0 != i
            &&& b.spec_alive(p)
            &&& b.spec_record(p).spec_has_child(b.spec_record_id(i).owner)
        })
        &&& forall|c: Entity|
            #![trigger b.spec_record_id(i).spec_has_child(c)]
            b.spec_record_id(i).spec_has_child(c) ==> {
                &&& c.0 != i
                &&& b.spec_alive(c)
                &&& b.spec_record(c).parent == Some(b.spec_record_id(i).owner)
            }
    } by {
        assert(a.spec_alive_id(i));
        let a_rec = a.spec_record_id(i);
        let b_rec = b.spec_record_id(i);
        assert(b_rec.owner == a_rec.owner);
        if b_rec.parent is Some {
            let p = b_rec.parent->0;
            if i == child.0 {
                assert(p == parent);
                assert(b.spec_record(parent).spec_has_child(child));
                assert(a_rec.owner == child) by {
                    assert(a.spec_record_id(child.0 as int).owner.0 == child.0);
                }
            } else {
                assert(b_rec.parent == a_rec.parent);
                assert(a.spec_alive(p));
                assert(p.0 != i);
                if p.0 == child.0 {
                    assert(b.spec_record(p).spec_has_child(a_rec.owner) == a.spec_record(
                        p,
                    ).spec_has_child(a_rec.owner));
                } else if p.0 == parent.0 {
                    assert(b.spec_record(p).spec_has_child(a_rec.owner));
                } else {
                    assert(b.spec_record(p) == a.spec_record(p));
                }
            }
        }
        assert forall|c: Entity|
            #![trigger b.spec_record_id(i).spec_has_child(c)]
            b.spec_record_id(i).spec_has_child(c) implies {
            &&& c.0 != i
            &&& b.spec_alive(c)
            &&& b.spec_record(c).parent == Some(b.spec_record_id(i).owner)
        } by {
            if i == parent.0 && c == child {
                assert(c.0 != i);
                assert(b.spec_record(c).parent == Some(parent));
                assert(b.spec_record_id(i).owner == parent) by {
                    assert(a.spec_record_id(parent.0 as int).owner.0 == parent.0);
                }
            } else {
                assert(a.spec_record_id(i).spec_has_child(c)) by {
                    if i == child.0 {
                        assert(b.spec_record(child).spec_has_child(c) == a.spec_record(
                            child,
                        ).spec_has_child(c));
                    } else if i == parent.0 {
                    } else {
                        assert(b.spec_record_id(i) == a.spec_record_id(i));
                    }
                }
                assert(a.spec_alive(c));
                assert(c.0 != i);
                assert(a.spec_record(c).parent == Some(a_rec.owner));
                if c.0 == child.0 {
                    // c is the newly linked child, so its old parent was
                    // None; no old child set can have contained it
                    assert(a.spec_record(child).parent is None);
                    assert(false);
                } else if c.0 == parent.0 {
                    assert(b.spec_record(c).parent == a.spec_record(c).parent);
                } else {
                    assert(b.spec_record(c) == a.spec_record(c));
                }
            }
        }
    }
    assert(b.wf_hier());
}

/// A reachability bound can always be relaxed upward.
proof fn lemma_reaches_mono(s: Seq<Option<EntityData>>, x: int, a: int, k: nat, k2: nat)
    requires
        reaches_in(s, x, a, k),
        k <= k2,
    ensures
        reaches_in(s, x, a, k2),
    decreases k,
{
    if x == a {
    } else {
        let p = s[x]->0.parent->0;
        lemma_reaches_mono(s, p.0 as int, a, (k - 1) as nat, (k2 - 1) as nat);
    }
}

/// Reachability chains compose.
proof fn lemma_reaches_trans(s: Seq<Option<EntityData>>, x: int, y: int, r: int, k1: nat, k2: nat)
    requires
        reaches_in(s, x, y, k1),
        reaches_in(s, y, r, k2),
    ensures
        reaches_in(s, x, r, (k1 + k2) as nat),
    decreases k1,
{
    if x == y {
        lemma_reaches_mono(s, x, r, k2, (k1 + k2) as nat);
    } else {
        let p = s[x]->0.parent->0;
        lemma_reaches_trans(s, p.0 as int, y, r, (k1 - 1) as nat, k2);
    }
}

/// An entity with no children has nothing strictly below it: the only
/// member of its subtree is itself.
proof fn lemma_childless_subtree(m: EntityManager, e: Entity, x: int, k: nat)
    requires
        m.wf_records(),
        m.wf_hier(),
        m.spec_alive(e),
        forall|c: Entity| !m.spec_record(e).spec_has_child(c),
        reaches_in(m.sparse@, x, e.0 as int, k),
    ensures
        x == e.0,
    decreases k,
{
    if x != e.0 {
        assert(m.spec_alive_id(x));
        let p = m.spec_record_id(x).parent->0;
        if p.0 == e.0 {
            let xo = m.spec_record_id(x).owner;
            assert(m.spec_record(p).spec_has_child(xo));
            assert(m.spec_record_id(e.0 as int) == m.spec_record(e));
            assert(false);
        } else {
            lemma_childless_subtree(m, e, p.0 as int, (k - 1) as nat);
        }
    }
}

/// Anything strictly below `e` lies below one of `e`'s children.
proof fn lemma_subtree_step(m: EntityManager, x: int, e: int, k: nat)
    requires
        m.wf_records(),
        m.wf_hier(),
        reaches_in(m.sparse@, x, e, k),
        x != e,
        m.spec_alive_id(e),
    ensures
        exists|c: Entity|
            #[trigger] m.spec_record_id(e).spec_has_child(c) && m.spec_in_subtree(x, c.0 as int),
    decreases k,
{
    assert(m.spec_alive_id(x));
    let p = m.spec_record_id(x).parent->0;
    if p.0 as int == e {
        let xo = m.spec_record_id(x).owner;
        assert(xo.0 == x);
        assert(m.spec_record(p).spec_has_child(xo));
        assert(m.spec_record_id(e) == m.spec_record(p));
        assert(reaches_in(m.sparse@, x, xo.0 as int, 0nat));
        assert(m.spec_reaches(x, xo.0 as int, 0nat));
        assert(m.spec_record_id(e).spec_has_child(xo) && m.spec_in_subtree(x, xo.0 as int));
    } else {
        lemma_subtree_step(m, p.0 as int, e, (k - 1) as nat);
        let c = choose|c: Entity|
            #[trigger] m.spec_record_id(e).spec_has_child(c) && m.spec_in_subtree(
                p.0 as int,
                c.0 as int,
            );
        let k2 = choose|k2: nat| m.spec_reaches(p.0 as int, c.0 as int, k2);
        assert(reaches_in(m.sparse@, p.0 as int, c.0 as int, k2));
        assert(reaches_in(m.sparse@, x, c.0 as int, (k2 + 1) as nat));
        assert(m.spec_reaches(x, c.0 as int, (k2 + 1) as nat));
        assert(m.spec_record_id(e).spec_has_child(c) && m.spec_in_subtree(x, c.0 as int));
    }
}

/// The ranking never increases along an ancestor chain.
proof fn lemma_ancestor_rank(m: EntityManager, x: int, a: int, k: nat)
    requires
        m.wf(),
        reaches_in(m.sparse@, x, a, k),
    ensures
        m.depth@[a] <= m.depth@[x],
    decreases k,
{
    if x == a {
    } else {
        assert(m.spec_alive_id(x));
        assert(m.spec_record_id(x) == m.sparse@[x]->0);
        let p = m.spec_record_id(x).parent->0;
        assert(m.depth@[p.0 as int] < m.depth@[x]);
        lemma_ancestor_rank(m, p.0 as int, a, (k - 1) as nat);
    }
}

/// The hierarchy never holds a cycle: no entity appears on the ancestor
/// chain of its own parent, so a walk that follows parent pointers from any
/// entity visits strictly descending ranks and terminates.
pub proof fn lemma_parent_walk_terminates(m: EntityManager, x: Entity, k: nat)
    requires
        m.wf(),
        m.spec_alive(x),
        m.spec_record(x).parent is Some,
    ensures
        !m.spec_reaches((m.spec_record(x).parent->0).0 as int, x.0 as int, k),
{
    let p = m.spec_record(x).parent->0;
    if m.spec_reaches(p.0 as int, x.0 as int, k) {
        lemma_ancestor_rank(m, p.0 as int, x.0 as int, k);
        assert(m.spec_record_id(x.0 as int) == m.spec_record(x));
        assert(m.depth@[p.0 as int] < m.depth@[x.0 as int]);
        assert(false);
    }
}

/// The most recently freed id is dead and its record is fully reset: no
/// parent, no children, no archetype bits. `spawn` reuses exactly this id,
/// handing the reset record back (see `spawn`'s contract), so a destroyed
/// and respawned entity starts from a clean slate.
pub proof fn lemma_freed_id_is_reset(m: EntityManager)
    requires
        m.wf(),
        m.destroyed@.len() > 0,
    ensures
        !m.spec_alive(m.destroyed@.last().owner),
        m.destroyed@.last().parent is None,
        m.destroyed@.last().dense@.len() == 0,
        forall|c: Entity| !m.destroyed@.last().spec_has_child(c),
        forall|id: int| !m.destroyed@.last().archetype.spec_has(id),
{
    assert(m.destroyed@[m.destroyed@.len() - 1] == m.destroyed@.last());
}

/// Two registries with the same queue fields satisfy the same queue
/// invariant.
proof fn lemma_wf_queue_same(a: EntityManager, b: EntityManager)
    requires
        a.wf_queue(),
        b.queue == a.queue,
        b.cursor == a.cursor,
        b.queued == a.queued,
    ensures
        b.wf_queue(),
{
    assert(b.queue@ == a.queue@);
    assert(b.queued@ == a.queued@);
    assert forall|id: int|
        0 <= id < b.queued@.len() && b.queued@[id] implies exists|j: int|
        b.cursor <= j < b.queue@.len() && (#[trigger] b.queue@[j]).0 == id by {
        let j = choose|j: int|
            a.cursor <= j < a.queue@.len() && (#[trigger] a.queue@[j]).0 == id;
        assert(b.queue@[j].0 == id);
    }
}

impl EntityManager {
    /// `e` is a live entity.
    pub open spec fn spec_alive(self, e: Entity) -> bool {
        e.0 < self.sparse@.len() && self.sparse@[e.0 as int] is Some
    }

    /// The id `i` is a live entity.
    pub open spec fn spec_alive_id(self, i: int) -> bool {
        0 <= i < self.sparse@.len() && self.sparse@[i] is Some
    }

    /// The record of live entity `e`.
    pub open spec fn spec_record(self, e: Entity) -> EntityData {
        self.sparse@[e.0 as int]->0
    }

    /// The record of the live entity with id `i`.
    pub open spec fn spec_record_id(self, i: int) -> EntityData {
        self.sparse@[i]->0
    }

    /// The parent of live entity `e`.
    pub open spec fn spec_parent(self, e: Entity) -> Option<Entity> {
        self.spec_record(e).parent
    }

    /// The archetype of live entity `e`.
    pub open spec fn spec_archetype(self, e: Entity) -> Archetype {
        self.spec_record(e).archetype
    }

    /// The entities still pending in the dirty queue, in order.
    pub open spec fn spec_pending(self) -> Seq<Entity> {
        self.queue@.subrange(self.cursor as int, self.queue@.len() as int)
    }

    /// `e` is pending in the dirty queue.
    pub open spec fn spec_queued(self, e: Entity) -> bool {
        e.0 < self.queued@.len() && self.queued@[e.0 as int]
    }

    /// Starting at id `x` and following parent pointers at most `k` times
    /// reaches id `a`.
    pub open spec fn spec_reaches(self, x: int, a: int, k: nat) -> bool {
        reaches_in(self.sparse@, x, a, k)
    }

    /// Id `x` is in the subtree rooted at id `a` (`a` is an ancestor of `x`
    /// or `x` itself).
    pub open spec fn spec_in_subtree(self, x: int, a: int) -> bool {
        exists|k: nat| self.spec_reaches(x, a, k)
    }

    /// Attaching `child` under `parent` would close a cycle: `child` already
    /// sits on `parent`'s ancestor chain.
    pub open spec fn spec_would_cycle(self, parent: Entity, child: Entity) -> bool {
        self.spec_in_subtree(parent.0 as int, child.0 as int)
    }

    /// Every live record belongs to its slot and is internally consistent.
    pub open spec fn wf_records(self) -> bool {
        forall|i: int|
            0 <= i < self.sparse@.len() && (#[trigger] self.sparse@[i]) is Some ==> {
                &&& self.sparse@[i]->0.owner.0 == i
                &&& self.sparse@[i]->0.wf()
            }
    }

    /// A destroyed record is cleared: no hierarchy links and no archetype
    /// bits, ready for reuse.
    pub open spec fn spec_cleared(data: EntityData) -> bool {
        &&& data.wf()
        &&& data.parent is None
        &&& data.dense@.len() == 0
        &&& forall|c: Entity| !data.spec_has_child(c)
        &&& forall|id: int| !data.archetype.spec_has(id)
    }

    /// Free-list entries are cleared records of dead slots, one per id.
    pub open spec fn wf_free(self) -> bool {
        &&& forall|k: int|
            0 <= k < self.destroyed@.len() ==> {
                &&& (#[trigger] self.destroyed@[k]).owner.0 < self.sparse@.len()
                &&& self.sparse@[self.destroyed@[k].owner.0 as int] is None
                &&& Self::spec_cleared(self.destroyed@[k])
            }
        &&& forall|k1: int, k2: int|
            0 <= k1 < k2 < self.destroyed@.len() ==> (#[trigger] self.destroyed@[k1]).owner != (
            #[trigger] self.destroyed@[k2]).owner
    }

    /// Parent and child links mirror each other over live entities.
    pub open spec fn wf_hier(self) -> bool {
        forall|i: int|
            #![trigger self.spec_record_id(i)]
            self.spec_alive_id(i) ==> {
                &&& (self.spec_record_id(i).parent matches Some(p) ==> {
                    &&& p.0 != i
                    &&& self.spec_alive(p)
                    &&& self.spec_record(p).spec_has_child(self.spec_record_id(i).owner)
                })
                &&& forall|c: Entity|
                    #![trigger self.spec_record_id(i).spec_has_child(c)]
                    self.spec_record_id(i).spec_has_child(c) ==> {
                        &&& c.0 != i
                        &&& self.spec_alive(c)
                        &&& self.spec_record(c).parent == Some(self.spec_record_id(i).owner)
                    }
            }
    }

    /// The ghost ranking strictly decreases along parent edges, which keeps
    /// the forest acyclic.
    pub open spec fn wf_depth(self) -> bool {
        forall|i: int|
            #![trigger self.spec_record_id(i)]
            self.spec_alive_id(i) ==> (self.spec_record_id(i).parent matches Some(p)
                ==> self.depth@[p.0 as int] < self.depth@[i])
    }

    /// The pending region of the queue and the per-id flags agree, with no
    /// entity pending twice.
    pub open spec fn wf_queue(self) -> bool {
        &&& self.cursor <= self.queue@.len()
        &&& forall|j: int|
            self.cursor <= j < self.queue@.len() ==> {
                &&& (#[trigger] self.queue@[j]).0 < self.queued@.len()
                &&& self.queued@[self.queue@[j].0 as int]
            }
        &&& forall|j1: int, j2: int|
            self.cursor <= j1 < j2 < self.queue@.len() ==> (#[trigger] self.queue@[j1]).0 != (
            #[trigger] self.queue@[j2]).0
        &&& forall|id: int|
            0 <= id < self.queued@.len() && self.queued@[id] ==> exists|j: int|
                self.cursor <= j < self.queue@.len() && (#[trigger] self.queue@[j]).0 == id
    }

    /// The whole registry is consistent.
    pub open spec fn wf(self) -> bool {
        &&& self.wf_records()
        &&& self.wf_free()
        &&& self.wf_hier()
        &&& self.wf_depth()
        &&& self.wf_queue()
    }

    /// An empty registry.
    pub fn new() -> (manager: Self)
        ensures
            manager.wf(),
            manager.sparse@.len() == 0,
            manager.destroyed@.len() == 0,
            manager.spec_pending().len() == 0,
            forall|e: Entity| !manager.spec_alive(e),
            forall|e: Entity| !manager.spec_queued(e),
    {
        Self {
            sparse: Vec::new(),
            destroyed: Vec::new(),
            queue: Vec::new(),
            cursor: 0,
            queued: Vec::new(),
            depth: Ghost(Map::empty()),
        }
    }

    /// Flags `e` as pending, appending it to the dirty queue unless it is
    /// already there. Only the queue fields change.
    fn mark_dirty(&mut self, e: Entity)
        requires
            old(self).wf_queue(),
            e.0 < usize::MAX,
        ensures
            final(self).wf_queue(),
            final(self).sparse == old(self).sparse,
            final(self).destroyed == old(self).destroyed,
            final(self).depth == old(self).depth,
            forall|x: Entity| final(self).spec_queued(x) == (old(self).spec_queued(x) || x == e),
            final(self).spec_pending() == if old(self).spec_queued(e) {
                old(self).spec_pending()
            } else {
                old(self).spec_pending().push(e)
            },
    {
        let id = e.id();
        if self.queued.len() <= id {
            let ghost pre = self.queued@;
            while self.queued.len() < id + 1
                invariant
                    id < usize::MAX,
                    pre.len() <= self.queued@.len() <= id + 1,
                    forall|i: int| 0 <= i < pre.len() ==> self.queued@[i] == pre[i],
                    forall|i: int| pre.len() <= i < self.queued@.len() ==> self.queued@[i] == false,
                    self.sparse == old(self).sparse,
                    self.destroyed == old(self).destroyed,
                    self.depth == old(self).depth,
                    self.queue == old(self).queue,
                    self.cursor == old(self).cursor,
                decreases id + 1 - self.queued.len(),
            {
                self.queued.push(false);
            }
            proof {
                assert forall|j: int|
                    old(self).cursor <= j < old(self).queue@.len() implies (#[trigger] old(self).queue@[j]).0 < self.queued@.len() && self.queued@[old(self).queue@[j].0 as int] by {
                    assert(old(self).queue@[j].0 < pre.len() && pre[old(self).queue@[j].0 as int]);
                }
            }
        }
        if !self.queued[id] {
            self.queued.set(id, true);
            self.queue.push(e);
            proof {
                assert forall|idx: int|
                    0 <= idx < self.queued@.len() && self.queued@[idx] implies exists|j: int|
                    self.cursor <= j < self.queue@.len() && (#[trigger] self.queue@[j]).0 == idx by {
                    if idx == id {
                        assert(self.queue@[self.queue@.len() - 1].0 == idx);
                    } else {
                        assert(old(self).spec_queued(Entity { 0: idx as usize }) || (idx
                            < old(self).queued@.len() && old(self).queued@[idx]));
                        let j = choose|j: int|
                            old(self).cursor <= j < old(self).queue@.len() && (#[trigger] old(self).queue@[j]).0 == idx;
                        assert(self.queue@[j].0 == idx);
                    }
                }
                assert(final(self).spec_pending() =~= old(self).spec_pending().push(e));
            }
        } else {
            proof {
                assert(final(self).spec_pending() =~= old(self).spec_pending());
            }
        }
    }

    /// Hands out the next pending entity, clearing its pending flag; resets
    /// the queue storage once it is exhausted. Entity records are untouched.
    pub fn poll_dirty(&mut self) -> (entity: Option<Entity>)
        requires
            old(self).wf(),
        ensures
            final(self).wf(),
            final(self).sparse == old(self).sparse,
            final(self).destroyed == old(self).destroyed,
            final(self).depth == old(self).depth,
            old(self).spec_pending().len() == 0 ==> entity is None && final(self).spec_pending().len() == 0 && final(self).queued == old(self).queued,
            old(self).spec_pending().len() > 0 ==> {
                &&& entity == Some(old(self).spec_pending()[0])
                &&& final(self).spec_pending() == old(self).spec_pending().subrange(
                    1,
                    old(self).spec_pending().len() as int,
                )
                &&& forall|x: Entity|
                    final(self).spec_queued(x) == (old(self).spec_queued(x) && x != old(self).spec_pending()[0])
            },
    {
        if self.cursor < self.queue.len() {
            let e = self.queue[self.cursor];
            self.cursor = self.cursor + 1;
            self.queued.set(e.id(), false);
            let polled = Some(e);
            proof {
                assert(old(self).spec_pending()[0] == e);
                assert forall|id: int|
                    0 <= id < self.queued@.len() && self.queued@[id] implies exists|j: int|
                    self.cursor <= j < self.queue@.len() && (#[trigger] self.queue@[j]).0 == id by {
                    let j = choose|j: int|
                        old(self).cursor <= j < old(self).queue@.len() && (#[trigger] old(self).queue@[j]).0 == id;
                    assert(id != e.0);
                    assert(j != old(self).cursor as int);
                    assert(self.queue@[j].0 == id);
                }
            }
            if self.cursor == self.queue.len() {
                self.queue.clear();
                self.cursor = 0;
                proof {
                    assert(final(self).spec_pending() =~= old(self).spec_pending().subrange(
                        1,
                        old(self).spec_pending().len() as int,
                    ));
                    lemma_wf_core_same_records(*old(self), *final(self));
                }
            } else {
                proof {
                    assert(final(self).spec_pending() =~= old(self).spec_pending().subrange(
                        1,
                        old(self).spec_pending().len() as int,
                    ));
                    lemma_wf_core_same_records(*old(self), *final(self));
                }
            }
            polled
        } else {
            self.queue.clear();
            self.cursor = 0;
            proof {
                assert(old(self).spec_pending().len() == 0);
                assert(final(self).spec_pending() =~= old(self).spec_pending());
                lemma_wf_core_same_records(*old(self), *final(self));
            }
            None
        }
    }

    /// A fresh entity: the most recently destroyed id, if any is free, with
    /// its record reset; otherwise a brand-new id. The entity starts with an
    /// empty archetype, no hierarchy links, and is flagged dirty.
    pub fn spawn(&mut self) -> (entity: Entity)
        requires
            old(self).wf(),
        ensures
            final(self).wf(),
            final(self).spec_alive(entity),
            !old(self).spec_alive(entity),
            old(self).destroyed@.len() > 0 ==> {
                &&& entity == old(self).destroyed@.last().owner
                &&& final(self).sparse@.len() == old(self).sparse@.len()
                &&& final(self).destroyed@ == old(self).destroyed@.drop_last()
            },
            old(self).destroyed@.len() == 0 ==> {
                &&& entity.0 == old(self).sparse@.len()
                &&& final(self).sparse@.len() == old(self).sparse@.len() + 1
                &&& final(self).destroyed@ == old(self).destroyed@
            },
            final(self).spec_record(entity).owner == entity,
            final(self).spec_record(entity).parent is None,
            final(self).spec_record(entity).dense@.len() == 0,
            forall|c: Entity| !final(self).spec_record(entity).spec_has_child(c),
            forall|id: int| !final(self).spec_archetype(entity).spec_has(id),
            forall|e: Entity| e != entity ==> final(self).spec_alive(e) == old(self).spec_alive(e),
            forall|e: Entity|
                e != entity && old(self).spec_alive(e) ==> final(self).spec_record(e) == old(self).spec_record(e),
            forall|x: Entity| final(self).spec_queued(x) == (old(self).spec_queued(x) || x == entity),
            final(self).spec_pending() == if old(self).spec_queued(entity) {
                old(self).spec_pending()
            } else {
                old(self).spec_pending().push(entity)
            },
    {
        let recycled = self.destroyed.pop();
        let entity = match recycled {
            Some(data) => {
                let e = data.owner();
                self.sparse.set(e.id(), Some(data));
                e
            },
            None => {
                let e = Entity::new(self.sparse.len());
                self.sparse.push(Some(EntityData::new(e)));
                let n = self.sparse.len();
                proof {
                    assert(e.0 < n);
                }
                e
            },
        };
        let upper = self.sparse.len();
        proof {
            assert(entity.0 < upper);
        }
        let ghost mid = *self;
        proof {
            assert(mid.wf_records());
            assert(mid.wf_free());
            assert forall|i: int|
                #![trigger mid.spec_record_id(i)]
                mid.spec_alive_id(i) implies {
                &&& (mid.spec_record_id(i).parent matches Some(p) ==> {
                    &&& p.0 != i
                    &&& mid.spec_alive(p)
                    &&& mid.spec_record(p).spec_has_child(mid.spec_record_id(i).owner)
                    &&& mid.depth@[p.0 as int] < mid.depth@[i]
                })
                &&& forall|c: Entity|
                    #![trigger mid.spec_record_id(i).spec_has_child(c)]
                    mid.spec_record_id(i).spec_has_child(c) ==> {
                        &&& c.0 != i
                        &&& mid.spec_alive(c)
                        &&& mid.spec_record(c).parent == Some(mid.spec_record_id(i).owner)
                    }
            } by {
                if i != entity.0 {
                    assert(old(self).spec_alive_id(i));
                    assert(mid.spec_record_id(i) == old(self).spec_record_id(i));
                    if old(self).spec_record_id(i).parent is Some {
                        let p = old(self).spec_record_id(i).parent->0;
                        assert(old(self).spec_alive(p));
                        assert(p.0 != entity.0);
                        assert(mid.spec_record(p) == old(self).spec_record(p));
                    }
                    assert forall|c: Entity|
                        #![trigger mid.spec_record_id(i).spec_has_child(c)]
                        mid.spec_record_id(i).spec_has_child(c) implies {
                        &&& c.0 != i
                        &&& mid.spec_alive(c)
                        &&& mid.spec_record(c).parent == Some(mid.spec_record_id(i).owner)
                    } by {
                        assert(old(self).spec_record_id(i).spec_has_child(c));
                        assert(old(self).spec_alive(c));
                        assert(c.0 != entity.0);
                        assert(mid.spec_record(c) == old(self).spec_record(c));
                    }
                }
            }
            assert(mid.wf_hier());
            assert(mid.wf_depth());
            lemma_wf_queue_same(*old(self), mid);
        }
        self.mark_dirty(entity);
        proof {
            lemma_wf_core_same_records(mid, *final(self));
        }
        entity
    }

    /// Destroys `root` and the whole subtree below it: every record is
    /// cleared and pushed onto the free list, and every destroyed entity is
    /// flagged dirty. Returns the destroyed entities. `root` must be alive
    /// and parentless.
    #[verifier::rlimit(100)]
    fn destroy_branch(&mut self, root: Entity) -> (removed: Vec<Entity>)
        requires
            old(self).wf(),
            old(self).spec_alive(root),
            old(self).spec_parent(root) is None,
        ensures
            final(self).wf(),
            forall|x: Entity|
                final(self).spec_alive(x) == (old(self).spec_alive(x) && !old(self).spec_in_subtree(x.0 as int, root.0 as int)),
            forall|x: Entity|
                #[trigger] removed@.contains(x) == (old(self).spec_alive(x) && old(self).spec_in_subtree(x.0 as int, root.0 as int)),
            forall|x: Entity|
                final(self).spec_alive(x) ==> final(self).spec_record(x) == old(self).spec_record(
                    x,
                ),
            final(self).sparse@.len() == old(self).sparse@.len(),
            final(self).destroyed@.len() == old(self).destroyed@.len() + removed@.len(),
            forall|k: int|
                0 <= k < old(self).destroyed@.len() ==> final(self).destroyed@[k] == old(self).destroyed@[k],
            forall|k: int|
                old(self).destroyed@.len() <= k < final(self).destroyed@.len() ==> final(self).destroyed@[k].owner == removed@[k - old(self).destroyed@.len()],
            forall|x: Entity|
                final(self).spec_queued(x) == (old(self).spec_queued(x) || removed@.contains(x)),
            removed@.contains(root),
    {
        let ghost m0 = *old(self);
        let mut stack: Vec<Entity> = Vec::new();
        let mut removed: Vec<Entity> = Vec::new();
        stack.push(root);
        proof {
            assert(reaches_in(m0.sparse@, root.0 as int, root.0 as int, 0nat));
            assert(m0.spec_reaches(root.0 as int, root.0 as int, 0nat));
            assert(stack@[0] == root);
            assert forall|x: Entity|
                self.spec_alive(x) && m0.spec_in_subtree(x.0 as int, root.0 as int)
                    implies exists|j: int|
                    0 <= j < stack@.len() && m0.spec_in_subtree(
                        x.0 as int,
                        (#[trigger] stack@[j]).0 as int,
                    ) by {
                assert(m0.spec_in_subtree(x.0 as int, (stack@[0]).0 as int));
            }
        }
        while stack.len() > 0
            invariant
                self.sparse@.len() == m0.sparse@.len(),
                self.wf_records(),
                self.wf_free(),
                self.wf_queue(),
                self.wf_depth(),
                self.depth == m0.depth,
                m0.wf(),
                m0.spec_alive(root),
                m0.spec_record(root).parent is None,
                forall|x: Entity|
                    self.spec_alive(x) ==> self.spec_record(x) == m0.spec_record(x),
                forall|x: Entity|
                    self.spec_alive(x) == (m0.spec_alive(x) && !removed@.contains(x)),
                forall|x: Entity|
                    #[trigger] removed@.contains(x) ==> m0.spec_alive(x) && m0.spec_in_subtree(
                        x.0 as int,
                        root.0 as int,
                    ),
                forall|x: Entity|
                    #[trigger] removed@.contains(x) ==> (x == root || (m0.spec_record(x).parent matches Some(pp) && !self.spec_alive(pp))),
                forall|j: int|
                    0 <= j < stack@.len() ==> self.spec_alive(#[trigger] stack@[j])
                        && m0.spec_in_subtree(stack@[j].0 as int, root.0 as int),
                forall|j: int|
                    0 <= j < stack@.len() ==> ((#[trigger] stack@[j]) == root || (m0.spec_record(
                        stack@[j],
                    ).parent matches Some(pp) && !self.spec_alive(pp))),
                forall|j1: int, j2: int|
                    0 <= j1 < j2 < stack@.len() ==> stack@[j1] != stack@[j2],
                forall|x: Entity|
                    self.spec_alive(x) && m0.spec_in_subtree(x.0 as int, root.0 as int)
                        ==> exists|j: int|
                        0 <= j < stack@.len() && m0.spec_in_subtree(
                            x.0 as int,
                            (#[trigger] stack@[j]).0 as int,
                        ),
                forall|i: int|
                    #![trigger self.spec_record_id(i)]
                    self.spec_alive_id(i) ==> {
                        &&& (self.spec_record_id(i).parent matches Some(p) ==> p.0 != i && (
                        self.spec_alive(p) ==> self.spec_record(p).spec_has_child(
                            self.spec_record_id(i).owner,
                        )) && (!self.spec_alive(p) ==> m0.spec_in_subtree(i, root.0 as int)))
                        &&& forall|c: Entity|
                            #![trigger self.spec_record_id(i).spec_has_child(c)]
                            self.spec_record_id(i).spec_has_child(c) ==> c.0 != i
                                && self.spec_alive(c) && self.spec_record(c).parent == Some(
                                self.spec_record_id(i).owner,
                            )
                    },
                self.destroyed@.len() == m0.destroyed@.len() + removed@.len(),
                forall|k: int|
                    0 <= k < m0.destroyed@.len() ==> self.destroyed@[k] == m0.destroyed@[k],
                forall|k: int|
                    m0.destroyed@.len() <= k < self.destroyed@.len() ==> self.destroyed@[k].owner
                        == removed@[k - m0.destroyed@.len()],
                forall|x: Entity|
                    self.spec_queued(x) == (m0.spec_queued(x) || removed@.contains(x)),
            decreases count_alive(self.sparse@),
        {
            let ghost pre = *self;
            let ghost stack_pre = stack@;
            let ghost removed_pre = removed@;
            let e = stack.pop().unwrap();
            proof {
                assert(stack_pre[stack_pre.len() - 1] == e);
                assert(pre.spec_alive(e));
                assert(m0.spec_in_subtree(e.0 as int, root.0 as int));
            }
            let mut taken: Option<EntityData> = None;
            self.sparse.set_and_swap(e.id(), &mut taken);
            let mut data = taken.unwrap();
            proof {
                assert(data == pre.spec_record(e));
                assert(data.owner == e);
                assert(data.wf());
                lemma_count_alive_update(pre.sparse@, e.0 as int);
            }
            let ghost mid = *self;
            let ghost kid_seq = data.dense@;
            proof {
                assert(stack@ =~= stack_pre.drop_last() + kid_seq.subrange(0, 0));
            }
            let kids = data.children();
            let nkids = kids.len();
            let mut ci: usize = 0;
            while ci < nkids
                invariant
                    ci <= nkids,
                    nkids == kid_seq.len(),
                    kids@ == kid_seq,
                    stack@ == stack_pre.drop_last() + kid_seq.subrange(0, ci as int),
                decreases nkids - ci,
            {
                stack.push(kids[ci]);
                ci += 1;
            }
            proof {
                assert(kid_seq.subrange(0, kid_seq.len() as int) =~= kid_seq);
                assert(stack@ == stack_pre.drop_last() + kid_seq);
            }
            data.clear();
            self.destroyed.push(data);
            let ghost mid2 = *self;
            let upper = self.sparse.len();
            proof {
                assert(e.0 < upper);
            }
            self.mark_dirty(e);
            removed.push(e);
            proof {
                let cur = *self;
                let rec = pre.spec_record(e);
                assert(cur.sparse@ == mid.sparse@ && cur.depth == mid.depth);
                assert(cur.sparse@ == pre.sparse@.update(e.0 as int, None::<EntityData>));
                assert(removed@ == removed_pre.push(e));
                // the popped entity is gone; everything else is as before
                assert forall|x: Entity| cur.spec_alive(x) == (pre.spec_alive(x) && x != e) by {
                    if x.0 != e.0 && x.0 < pre.sparse@.len() {
                        assert(cur.sparse@[x.0 as int] == pre.sparse@[x.0 as int]);
                    }
                }
                assert forall|x: Entity|
                    cur.spec_alive(x) implies cur.spec_record(x) == pre.spec_record(x) by {
                    assert(x.0 != e.0);
                }
                // no live record ever lists a destroyed entity as its child,
                // so the mirror half about children still holds
                assert forall|x: Entity|
                    #[trigger] removed@.contains(x) implies m0.spec_alive(x)
                    && m0.spec_in_subtree(x.0 as int, root.0 as int) by {
                    let j = choose|j: int| 0 <= j < removed@.len() && removed@[j] == x;
                    if j < removed_pre.len() {
                        assert(removed_pre[j] == x);
                        assert(removed_pre.contains(x));
                    } else {
                        assert(x == e);
                    }
                }
                assert forall|x: Entity|
                    #[trigger] removed@.contains(x) implies (x == root || (m0.spec_record(x).parent matches Some(pp) && !cur.spec_alive(pp))) by {
                    if removed_pre.contains(x) {
                        if x != root {
                            let pp = m0.spec_record(x).parent->0;
                            assert(!pre.spec_alive(pp));
                        }
                    } else {
                        assert(x == e);
                    }
                }
                assert forall|x: Entity|
                    cur.spec_alive(x) == (m0.spec_alive(x) && !removed@.contains(x)) by {
                    if removed_pre.contains(x) {
                        assert(!pre.spec_alive(x));
                        let j = choose|j: int|
                            0 <= j < removed_pre.len() && removed_pre[j] == x;
                        assert(removed@[j] == x);
                        assert(removed@.contains(x));
                    } else if x == e {
                        assert(removed@[removed@.len() - 1] == x);
                        assert(removed@.contains(x));
                    } else {
                        assert(!removed@.contains(x)) by {
                            if removed@.contains(x) {
                                let j = choose|j: int|
                                    0 <= j < removed@.len() && removed@[j] == x;
                                assert(j < removed_pre.len());
                                assert(removed_pre[j] == x);
                                assert(removed_pre.contains(x));
                            }
                        }
                    }
                }
                // stack entries: survivors stay alive and distinct; the new
                // children are alive, under the root, and freshly orphaned
                let survivors = stack_pre.drop_last();
                assert forall|j: int|
                    0 <= j < stack@.len() implies cur.spec_alive(#[trigger] stack@[j])
                    && m0.spec_in_subtree(stack@[j].0 as int, root.0 as int) && (stack@[j] == root
                    || (m0.spec_record(stack@[j]).parent matches Some(pp) && !cur.spec_alive(
                    pp,
                ))) by {
                    if j < survivors.len() {
                        let x = stack_pre[j];
                        assert(stack@[j] == x);
                        assert(pre.spec_alive(x));
                        assert(x != e) by {
                            assert(stack_pre[stack_pre.len() - 1] == e);
                        }
                        if x != root {
                            let pp = m0.spec_record(x).parent->0;
                            assert(!pre.spec_alive(pp));
                        }
                    } else {
                        let c = rec.dense@[j - survivors.len()];
                        assert(stack@[j] == c);
                        assert(rec.spec_has_child(c)) by {
                            assert(rec.sparse@[rec.dense@[j - survivors.len()].0 as int] == Some(
                                (j - survivors.len()) as usize,
                            ));
                        }
                        assert(pre.spec_record_id(e.0 as int) == rec);
                        assert(pre.spec_record_id(e.0 as int).spec_has_child(c));
                        assert(pre.spec_alive(c) && c.0 != e.0 && pre.spec_record(c).parent
                            == Some(rec.owner));
                        assert(cur.spec_alive(c));
                        // under the root: through `e`
                        assert(m0.spec_alive(c));
                        assert(m0.spec_record(c) == pre.spec_record(c));
                        assert(m0.spec_record(c).parent == Some(rec.owner));
                        assert(rec.owner == e);
                        assert(reaches_in(m0.sparse@, e.0 as int, e.0 as int, 0nat));
                        assert(reaches_in(m0.sparse@, c.0 as int, e.0 as int, 1nat));
                        let ke = choose|ke: nat|
                            m0.spec_reaches(e.0 as int, root.0 as int, ke);
                        lemma_reaches_trans(
                            m0.sparse@,
                            c.0 as int,
                            e.0 as int,
                            root.0 as int,
                            1nat,
                            ke,
                        );
                        assert(m0.spec_reaches(c.0 as int, root.0 as int, (1 + ke) as nat));
                        assert(c != root) by {
                            if c == root {
                                assert(m0.spec_record(root).parent == Some(e));
                            }
                        }
                    }
                }
                assert forall|j1: int, j2: int|
                    0 <= j1 < j2 < stack@.len() implies stack@[j1] != stack@[j2] by {
                    let s0 = survivors.len() as int;
                    if j2 < s0 {
                    } else if j1 < s0 {
                        let x = stack@[j1];
                        let c = stack@[j2];
                        assert(rec.spec_has_child(c)) by {
                            assert(rec.sparse@[rec.dense@[j2 - s0].0 as int] == Some((j2
                                - s0) as usize));
                        }
                        if x == c {
                            assert(m0.spec_record(c).parent == Some(e));
                            if x == root {
                                assert(m0.spec_record(root).parent is None);
                            } else {
                                let pp = m0.spec_record(x).parent->0;
                                assert(!pre.spec_alive(pp));
                                assert(pp == e);
                                assert(pre.spec_alive(e));
                            }
                        }
                    } else {
                        let c1 = rec.dense@[j1 - s0];
                        let c2 = rec.dense@[j2 - s0];
                        assert(rec.sparse@[c1.0 as int] == Some((j1 - s0) as usize));
                        assert(rec.sparse@[c2.0 as int] == Some((j2 - s0) as usize));
                        assert(c1 != c2);
                    }
                }
                // coverage: anything still alive under the root is under a
                // stack entry; if it was under `e`, it is under a child of
                // `e` that was just pushed
                assert forall|x: Entity|
                    cur.spec_alive(x) && m0.spec_in_subtree(x.0 as int, root.0 as int)
                        implies exists|j: int|
                        0 <= j < stack@.len() && m0.spec_in_subtree(
                            x.0 as int,
                            (#[trigger] stack@[j]).0 as int,
                        ) by {
                    assert(pre.spec_alive(x));
                    let j0 = choose|j0: int|
                        0 <= j0 < stack_pre.len() && m0.spec_in_subtree(
                            x.0 as int,
                            (#[trigger] stack_pre[j0]).0 as int,
                        );
                    if j0 < stack_pre.len() - 1 {
                        assert(stack@[j0] == stack_pre[j0]);
                    } else {
                        // x was under e
                        assert(stack_pre[j0] == e);
                        assert(x != e);
                        let kx = choose|kx: nat| m0.spec_reaches(x.0 as int, e.0 as int, kx);
                        assert(reaches_in(m0.sparse@, x.0 as int, e.0 as int, kx));
                        lemma_subtree_step(m0, x.0 as int, e.0 as int, kx);
                        let c = choose|c: Entity|
                            #[trigger] m0.spec_record_id(e.0 as int).spec_has_child(c)
                                && m0.spec_in_subtree(x.0 as int, c.0 as int);
                        assert(m0.spec_record_id(e.0 as int) == rec);
                        // locate c in the pushed children
                        assert(rec.spec_has_child(c));
                        let ix = rec.sparse@[c.0 as int]->0 as int;
                        assert(rec.dense@[ix] == c) by {
                            assert(rec.dense@[ix].0 == c.0);
                        }
                        let s0 = survivors.len() as int;
                        assert(stack@[s0 + ix] == c);
                    }
                }
                // the partial mirror invariant
                assert forall|i: int|
                    #![trigger cur.spec_record_id(i)]
                    cur.spec_alive_id(i) implies {
                    &&& (cur.spec_record_id(i).parent matches Some(p) ==> p.0 != i && (
                    cur.spec_alive(p) ==> cur.spec_record(p).spec_has_child(
                        cur.spec_record_id(i).owner,
                    )) && (!cur.spec_alive(p) ==> m0.spec_in_subtree(i, root.0 as int)))
                    &&& forall|c: Entity|
                        #![trigger cur.spec_record_id(i).spec_has_child(c)]
                        cur.spec_record_id(i).spec_has_child(c) ==> c.0 != i && cur.spec_alive(c)
                            && cur.spec_record(c).parent == Some(cur.spec_record_id(i).owner)
                } by {
                    assert(i != e.0);
                    assert(pre.spec_alive_id(i));
                    assert(cur.spec_record_id(i) == pre.spec_record_id(i));
                    if cur.spec_record_id(i).parent is Some {
                        let p = cur.spec_record_id(i).parent->0;
                        if p.0 == e.0 {
                            // i was a child of the destroyed entity: it lies
                            // under the root through e
                            assert(pre.spec_record(p).spec_has_child(pre.spec_record_id(i).owner));
                            assert(pre.spec_record_id(i).owner.0 == i);
                            assert(m0.spec_alive_id(i));
                            assert(m0.spec_record_id(i) == pre.spec_record_id(i));
                            assert(m0.spec_record_id(i).parent == Some(e)) by {
                                assert((pre.spec_record_id(i).parent->0).0 == e.0);
                            }
                            assert(reaches_in(m0.sparse@, e.0 as int, e.0 as int, 0nat));
                            assert(reaches_in(m0.sparse@, i, e.0 as int, 1nat));
                            let ke = choose|ke: nat|
                                m0.spec_reaches(e.0 as int, root.0 as int, ke);
                            lemma_reaches_trans(
                                m0.sparse@,
                                i,
                                e.0 as int,
                                root.0 as int,
                                1nat,
                                ke,
                            );
                            assert(m0.spec_reaches(i, root.0 as int, (1 + ke) as nat));
                            assert(m0.spec_in_subtree(i, root.0 as int));
                        } else if !pre.spec_alive(p) {
                        } else {
                            assert(cur.spec_record(p) == pre.spec_record(p));
                        }
                    }
                    assert forall|c: Entity|
                        #![trigger cur.spec_record_id(i).spec_has_child(c)]
                        cur.spec_record_id(i).spec_has_child(c) implies c.0 != i
                        && cur.spec_alive(c) && cur.spec_record(c).parent == Some(
                        cur.spec_record_id(i).owner,
                    ) by {
                        assert(pre.spec_record_id(i).spec_has_child(c));
                        assert(pre.spec_alive(c));
                        assert(c.0 != e.0) by {
                            if c.0 == e.0 {
                                assert(pre.spec_record(c).parent == Some(
                                    pre.spec_record_id(i).owner,
                                ));
                                assert(pre.spec_record(e) == m0.spec_record(e));
                                if e == root {
                                    assert(m0.spec_record(root).parent is None);
                                } else {
                                    let pp = m0.spec_record(e).parent->0;
                                    assert(!pre.spec_alive(pp));
                                    assert(pp.0 == i);
                                }
                            }
                        }
                        assert(cur.spec_alive(c));
                        assert(cur.spec_record(c) == pre.spec_record(c));
                    }
                }
                // free list and queue bookkeeping
                assert(cur.destroyed@.len() == pre.destroyed@.len() + 1);
                assert forall|k: int|
                    0 <= k < pre.destroyed@.len() implies cur.destroyed@[k]
                    == pre.destroyed@[k] by {}
                assert(cur.destroyed@[cur.destroyed@.len() - 1].owner == e);
                assert(Self::spec_cleared(cur.destroyed@[cur.destroyed@.len() - 1]));
                assert forall|k: int|
                    0 <= k < cur.destroyed@.len() implies {
                    &&& (#[trigger] cur.destroyed@[k]).owner.0 < cur.sparse@.len()
                    &&& cur.sparse@[cur.destroyed@[k].owner.0 as int] is None
                    &&& Self::spec_cleared(cur.destroyed@[k])
                } by {
                    if k < pre.destroyed@.len() {
                        assert(pre.sparse@[pre.destroyed@[k].owner.0 as int] is None);
                        assert(pre.destroyed@[k].owner.0 != e.0);
                    }
                }
                assert forall|k1: int, k2: int|
                    0 <= k1 < k2 < cur.destroyed@.len() implies (
                #[trigger] cur.destroyed@[k1]).owner != (#[trigger] cur.destroyed@[k2]).owner by {
                    if k2 == cur.destroyed@.len() - 1 {
                        assert(pre.sparse@[pre.destroyed@[k1].owner.0 as int] is None);
                        assert(pre.destroyed@[k1].owner.0 != e.0);
                    }
                }
                assert(cur.wf_free());
                assert forall|k: int|
                    m0.destroyed@.len() <= k < cur.destroyed@.len() implies cur.destroyed@[k].owner
                    == removed@[k - m0.destroyed@.len()] by {
                    if k < pre.destroyed@.len() {
                        assert(removed@[k - m0.destroyed@.len()] == removed_pre[k
                            - m0.destroyed@.len()]);
                    }
                }
                assert forall|x: Entity|
                    cur.spec_queued(x) == (m0.spec_queued(x) || removed@.contains(x)) by {
                    assert(mid2.spec_queued(x) == pre.spec_queued(x));
                    assert(cur.spec_queued(x) == (mid2.spec_queued(x) || x == e));
                    if removed@.contains(x) && !removed_pre.contains(x) && x != e {
                        let j = choose|j: int| 0 <= j < removed@.len() && removed@[j] == x;
                        assert(removed_pre[j] == x);
                    }
                    if removed_pre.contains(x) {
                        assert(removed@.contains(x));
                    }
                    if x == e {
                        assert(removed@[removed@.len() - 1] == x);
                        assert(removed@.contains(x));
                    }
                }
                // the remaining structural invariants
                assert forall|i: int|
                    0 <= i < cur.sparse@.len() && (#[trigger] cur.sparse@[i]) is Some implies {
                    &&& cur.sparse@[i]->0.owner.0 == i
                    &&& cur.sparse@[i]->0.wf()
                } by {
                    assert(i != e.0);
                    assert(cur.sparse@[i] == pre.sparse@[i]);
                }
                assert(cur.wf_records());
                assert forall|i: int|
                    #![trigger cur.spec_record_id(i)]
                    cur.spec_alive_id(i) implies (cur.spec_record_id(i).parent matches Some(p)
                    ==> cur.depth@[p.0 as int] < cur.depth@[i]) by {
                    assert(i != e.0);
                    assert(pre.spec_alive_id(i));
                    assert(cur.spec_record_id(i) == pre.spec_record_id(i));
                }
                assert(cur.wf_depth());
            }
        }
        proof {
            assert(stack@.len() == 0);
            // nothing alive is left under the root, so every record in the
            // old subtree was destroyed and the mirror is whole again
            assert forall|x: Entity|
                #[trigger] removed@.contains(x) == (old(self).spec_alive(x) && old(self).spec_in_subtree(x.0 as int, root.0 as int)) by {
                if old(self).spec_alive(x) && old(self).spec_in_subtree(x.0 as int, root.0 as int)
                    && !removed@.contains(x) {
                    assert(final(self).spec_alive(x));
                    assert(false);
                }
            }
            assert(removed@.contains(root)) by {
                assert(!final(self).spec_alive(root));
                assert(old(self).spec_reaches(root.0 as int, root.0 as int, 0nat));
            }
            assert forall|i: int|
                #![trigger final(self).spec_record_id(i)]
                final(self).spec_alive_id(i) implies {
                &&& (final(self).spec_record_id(i).parent matches Some(p) ==> {
                    &&& p.0 != i
                    &&& final(self).spec_alive(p)
                    &&& final(self).spec_record(p).spec_has_child(final(self).spec_record_id(i).owner)
                })
                &&& forall|c: Entity|
                    #![trigger final(self).spec_record_id(i).spec_has_child(c)]
                    final(self).spec_record_id(i).spec_has_child(c) ==> {
                        &&& c.0 != i
                        &&& final(self).spec_alive(c)
                        &&& final(self).spec_record(c).parent == Some(final(self).spec_record_id(i).owner)
                    }
            } by {
                if final(self).spec_record_id(i).parent is Some {
                    let p = final(self).spec_record_id(i).parent->0;
                    if !final(self).spec_alive(p) {
                        let xe = final(self).spec_record_id(i).owner;
                        assert(xe.0 == i);
                        assert(final(self).spec_alive(xe));
                        assert(m0.spec_in_subtree(i, root.0 as int));
                        assert(false);
                    }
                }
            }
            assert(final(self).wf_hier());
        }
        removed
    }

    /// Destroys `entity` and, recursively, its whole subtree of children:
    /// each destroyed record is detached, cleared, pushed onto the free list
    /// for reuse, and flagged dirty. Destroying a dead entity is a no-op.
    /// Returns the destroyed entities.
    pub fn destroy(&mut self, entity: Entity) -> (removed: Vec<Entity>)
        requires
            old(self).wf(),
        ensures
            final(self).wf(),
            !old(self).spec_alive(entity) ==> *final(self) == *old(self) && removed@.len() == 0,
            old(self).spec_alive(entity) ==> {
                &&& forall|x: Entity|
                    final(self).spec_alive(x) == (old(self).spec_alive(x) && !old(self).spec_in_subtree(x.0 as int, entity.0 as int))
                &&& forall|x: Entity|
                    #[trigger] removed@.contains(x) == (old(self).spec_alive(x) && old(self).spec_in_subtree(x.0 as int, entity.0 as int))
                &&& removed@.contains(entity)
                &&& final(self).sparse@.len() == old(self).sparse@.len()
                &&& final(self).destroyed@.len() == old(self).destroyed@.len() + removed@.len()
                &&& forall|k: int|
                    0 <= k < old(self).destroyed@.len() ==> final(self).destroyed@[k] == old(self).destroyed@[k]
                &&& forall|k: int|
                    old(self).destroyed@.len() <= k < final(self).destroyed@.len()
                        ==> final(self).destroyed@[k].owner == removed@[k - old(self).destroyed@.len()]
                &&& forall|x: Entity|
                    final(self).spec_queued(x) == (old(self).spec_queued(x) || removed@.contains(x))
                &&& forall|x: Entity, j: int|
                    final(self).spec_alive(x) ==> final(self).spec_archetype(x).spec_has(j) == old(self).spec_archetype(x).spec_has(j)
                &&& forall|x: Entity|
                    final(self).spec_alive(x) ==> final(self).spec_archetype(x).count == old(self).spec_archetype(x).count
                &&& forall|x: Entity|
                    final(self).spec_alive(x) && Some(x) != old(self).spec_parent(entity)
                        ==> final(self).spec_record(x) == old(self).spec_record(x)
                &&& (old(self).spec_parent(entity) matches Some(q) ==> {
                    &&& final(self).spec_alive(q)
                    &&& final(self).spec_parent(q) == old(self).spec_parent(q)
                    &&& final(self).spec_record(q).owner == old(self).spec_record(q).owner
                    &&& forall|c: Entity|
                        final(self).spec_record(q).spec_has_child(c) == (old(self).spec_record(q).spec_has_child(c) && c != entity)
                })
                &&& ((forall|c: Entity| !old(self).spec_record(entity).spec_has_child(c)) ==> {
                    &&& final(self).destroyed@.len() == old(self).destroyed@.len() + 1
                    &&& final(self).destroyed@.last().owner == entity
                })
            },
    {
        let alive = entity.id() < self.sparse.len() && self.sparse[entity.id()].is_some();
        if !alive {
            return Vec::new();
        }
        self.unbind(entity);
        let ghost m1 = *self;
        proof {
            // unlinking the entity from its parent does not change which
            // entities sit below it
            assert forall|i: int|
                i != entity.0 && old(self).spec_alive_id(i) implies (
            #[trigger] m1.spec_record_id(i)).parent == old(self).spec_record_id(i).parent by {
                let x = old(self).spec_record_id(i).owner;
                assert(x.0 == i);
                assert(m1.spec_parent(x) == old(self).spec_parent(x));
            }
            assert forall|i: int| old(self).spec_alive_id(i) == m1.spec_alive_id(i) by {
                let x = Entity { 0: i as usize };
                if 0 <= i < old(self).sparse@.len() {
                    assert(old(self).spec_alive(x) == m1.spec_alive(x));
                }
            }
            assert forall|x: Entity|
                m1.spec_in_subtree(x.0 as int, entity.0 as int) == old(self).spec_in_subtree(
                    x.0 as int,
                    entity.0 as int,
                ) by {
                if m1.spec_in_subtree(x.0 as int, entity.0 as int) {
                    let k = choose|k: nat| m1.spec_reaches(x.0 as int, entity.0 as int, k);
                    lemma_reach_to_c_same(m1, *old(self), entity.0 as int, x.0 as int, k);
                }
                if old(self).spec_in_subtree(x.0 as int, entity.0 as int) {
                    let k = choose|k: nat|
                        old(self).spec_reaches(x.0 as int, entity.0 as int, k);
                    lemma_reach_to_c_same(*old(self), m1, entity.0 as int, x.0 as int, k);
                }
            }
        }
        let removed = self.destroy_branch(entity);
        proof {
            assert forall|x: Entity, j: int|
                final(self).spec_alive(x) implies final(self).spec_archetype(x).spec_has(j) == old(self).spec_archetype(x).spec_has(j) by {
                assert(m1.spec_alive(x));
                assert(final(self).spec_record(x) == m1.spec_record(x));
                if old(self).spec_parent(entity) is Some {
                    assert(m1.spec_archetype(x).spec_has(j) == old(self).spec_archetype(
                        x,
                    ).spec_has(j));
                } else {
                    assert(m1.sparse@ == old(self).sparse@);
                    assert(m1.spec_record(x) == old(self).spec_record(x));
                }
            }
            assert forall|x: Entity|
                final(self).spec_alive(x) implies final(self).spec_archetype(x).count == old(self).spec_archetype(x).count by {
                assert(m1.spec_alive(x));
                assert(final(self).spec_record(x) == m1.spec_record(x));
                if old(self).spec_parent(entity) is Some {
                    assert(m1.spec_archetype(x).count == old(self).spec_archetype(x).count);
                } else {
                    assert(m1.sparse@ == old(self).sparse@);
                    assert(m1.spec_record(x) == old(self).spec_record(x));
                }
            }
            // survivors keep their records; the old parent only loses the
            // destroyed child
            assert forall|x: Entity|
                final(self).spec_alive(x) && Some(x) != old(self).spec_parent(entity)
                    implies final(self).spec_record(x) == old(self).spec_record(x) by {
                assert(m1.spec_alive(x));
                assert(final(self).spec_record(x) == m1.spec_record(x));
                if old(self).spec_parent(entity) is Some {
                    assert(m1.spec_record(x) == old(self).spec_record(x));
                } else {
                    assert(m1.sparse@ == old(self).sparse@);
                }
            }
            if old(self).spec_parent(entity) is Some {
                let q = old(self).spec_parent(entity)->0;
                // the parent cannot sit below its own child, by the ranking
                assert(!old(self).spec_in_subtree(q.0 as int, entity.0 as int)) by {
                    if old(self).spec_in_subtree(q.0 as int, entity.0 as int) {
                        let k = choose|k: nat|
                            old(self).spec_reaches(q.0 as int, entity.0 as int, k);
                        lemma_ancestor_rank(*old(self), q.0 as int, entity.0 as int, k);
                        assert(old(self).spec_record_id(entity.0 as int) == old(self).spec_record(entity));
                        assert(old(self).depth@[q.0 as int] < old(self).depth@[entity.0 as int]);
                        assert(false);
                    }
                }
                assert(old(self).spec_alive(q));
                assert(final(self).spec_alive(q));
                assert(final(self).spec_record(q) == m1.spec_record(q));
                assert(m1.spec_parent(q) == old(self).spec_parent(q));
            }
            // a childless entity is its whole subtree, so exactly one record
            // was freed
            if forall|c: Entity| !old(self).spec_record(entity).spec_has_child(c) {
                assert forall|x: Entity|
                    #[trigger] removed@.contains(x) implies x == entity by {
                    let k = choose|k: nat|
                        old(self).spec_reaches(x.0 as int, entity.0 as int, k);
                    lemma_childless_subtree(*old(self), entity, x.0 as int, k);
                    assert(x.0 == entity.0);
                }
                assert(final(self).destroyed@.len() <= old(self).destroyed@.len() + 1) by {
                    if final(self).destroyed@.len() >= old(self).destroyed@.len() + 2 {
                        let k1 = old(self).destroyed@.len() as int;
                        let k2 = k1 + 1;
                        assert(removed@.contains(removed@[0]));
                        assert(removed@.contains(removed@[1]));
                        assert(final(self).destroyed@[k1].owner == removed@[0]);
                        assert(final(self).destroyed@[k2].owner == removed@[1]);
                        assert(final(self).destroyed@[k1].owner != final(self).destroyed@[k2].owner);
                        assert(false);
                    }
                }
                assert(removed@.contains(entity));
                assert(removed@.len() >= 1);
                assert(final(self).destroyed@.len() == old(self).destroyed@.len() + 1);
                assert(final(self).destroyed@.last().owner == removed@[0]);
                assert(removed@.contains(removed@[0]));
                assert(final(self).destroyed@.last().owner == entity);
            }
        }
        removed
    }

    /// The record of `owner`, if it is alive.
    pub fn get(&self, owner: Entity) -> (data: Option<&EntityData>)
        ensures
            data is Some <==> self.spec_alive(owner),
            self.spec_alive(owner) ==> data->0 == self.spec_record(owner),
    {
        if owner.id() < self.sparse.len() {
            self.sparse[owner.id()].as_ref()
        } else {
            None
        }
    }

    /// The archetype of `owner`, if it is alive.
    pub fn archetype(&self, owner: Entity) -> (archetype: Option<&Archetype>)
        ensures
            archetype is Some <==> self.spec_alive(owner),
            self.spec_alive(owner) ==> archetype->0 == self.spec_archetype(owner),
    {
        match self.get(owner) {
            Some(data) => Some(data.archetype()),
            None => None,
        }
    }

    /// Sets archetype bit `bit` on live entity `owner` and flags it dirty.
    /// Returns whether the bit was already set.
    pub(crate) fn archetype_insert(&mut self, owner: Entity, bit: usize) -> (dup: bool)
        requires
            old(self).wf(),
            old(self).spec_alive(owner),
            bit < usize::MAX,
        ensures
            final(self).wf(),
            dup == old(self).spec_archetype(owner).spec_has(bit as int),
            forall|j: int|
                final(self).spec_archetype(owner).spec_has(j) == (old(self).spec_archetype(
                    owner,
                ).spec_has(j) || j == bit),
            final(self).sparse@.len() == old(self).sparse@.len(),
            forall|e: Entity| final(self).spec_alive(e) == old(self).spec_alive(e),
            forall|e: Entity|
                e != owner && old(self).spec_alive(e) ==> final(self).spec_record(e) == old(self).spec_record(e),
            final(self).spec_record(owner).owner == owner,
            final(self).spec_record(owner).parent == old(self).spec_record(owner).parent,
            final(self).spec_record(owner).sparse == old(self).spec_record(owner).sparse,
            final(self).spec_record(owner).dense == old(self).spec_record(owner).dense,
            final(self).destroyed == old(self).destroyed,
            forall|x: Entity| final(self).spec_queued(x) == (old(self).spec_queued(x) || x == owner),
            forall|x: Entity| old(self).spec_queued(x) ==> final(self).spec_queued(x),
            final(self).spec_pending() == if old(self).spec_queued(owner) {
                old(self).spec_pending()
            } else {
                old(self).spec_pending().push(owner)
            },
    {
        let upper = self.sparse.len();
        proof {
            assert(owner.0 < upper);
        }
        let slot = vec_index_mut(&mut self.sparse, owner.id());
        let data = slot.as_mut().unwrap();
        let archetype = data.archetype_mut();
        let dup = archetype.insert(bit);
        let ghost mid = *self;
        proof {
            lemma_wf_after_record_surgery(*old(self), mid, owner);
            lemma_wf_queue_same(*old(self), mid);
        }
        self.mark_dirty(owner);
        proof {
            lemma_wf_core_same_records(mid, *final(self));
        }
        dup
    }

    /// Clears archetype bit `bit` on live entity `owner` and flags it dirty.
    /// Returns whether a bit was cleared.
    pub(crate) fn archetype_remove(&mut self, owner: Entity, bit: usize) -> (removed: bool)
        requires
            old(self).wf(),
            old(self).spec_alive(owner),
        ensures
            final(self).wf(),
            removed == old(self).spec_archetype(owner).spec_has(bit as int),
            forall|j: int|
                final(self).spec_archetype(owner).spec_has(j) == (old(self).spec_archetype(
                    owner,
                ).spec_has(j) && j != bit),
            final(self).sparse@.len() == old(self).sparse@.len(),
            forall|e: Entity| final(self).spec_alive(e) == old(self).spec_alive(e),
            forall|e: Entity|
                e != owner && old(self).spec_alive(e) ==> final(self).spec_record(e) == old(self).spec_record(e),
            final(self).spec_record(owner).owner == owner,
            final(self).spec_record(owner).parent == old(self).spec_record(owner).parent,
            final(self).spec_record(owner).sparse == old(self).spec_record(owner).sparse,
            final(self).spec_record(owner).dense == old(self).spec_record(owner).dense,
            final(self).destroyed == old(self).destroyed,
            forall|x: Entity| final(self).spec_queued(x) == (old(self).spec_queued(x) || x == owner),
            forall|x: Entity| old(self).spec_queued(x) ==> final(self).spec_queued(x),
            final(self).spec_pending() == if old(self).spec_queued(owner) {
                old(self).spec_pending()
            } else {
                old(self).spec_pending().push(owner)
            },
    {
        let upper = self.sparse.len();
        proof {
            assert(owner.0 < upper);
        }
        let slot = vec_index_mut(&mut self.sparse, owner.id());
        let data = slot.as_mut().unwrap();
        let archetype = data.archetype_mut();
        let removed = archetype.remove(bit);
        let ghost mid = *self;
        proof {
            lemma_wf_after_record_surgery(*old(self), mid, owner);
            lemma_wf_queue_same(*old(self), mid);
        }
        self.mark_dirty(owner);
        proof {
            lemma_wf_core_same_records(mid, *final(self));
        }
        removed
    }

    /// Detaches `child` from its parent, if it is alive and has one. The
    /// affected records are marked dirty; the dirty queue is untouched.
    pub fn unbind(&mut self, child: Entity)
        requires
            old(self).wf(),
        ensures
            final(self).wf(),
            (!old(self).spec_alive(child) || old(self).spec_parent(child) is None) ==> final(self).sparse == old(self).sparse,
            final(self).destroyed == old(self).destroyed,
            final(self).queue == old(self).queue,
            final(self).cursor == old(self).cursor,
            final(self).queued == old(self).queued,
            (old(self).spec_alive(child) && old(self).spec_parent(child) is Some) ==> {
                let q = old(self).spec_parent(child)->0;
                &&& final(self).spec_parent(child) is None
                &&& forall|e: Entity| final(self).spec_alive(e) == old(self).spec_alive(e)
                &&& final(self).sparse@.len() == old(self).sparse@.len()
                &&& forall|e: Entity|
                    e != child && e != q && old(self).spec_alive(e) ==> final(self).spec_record(e)
                        == old(self).spec_record(e)
                &&& forall|e: Entity|
                    old(self).spec_alive(e) && e != child ==> final(self).spec_parent(e) == old(self).spec_parent(e)
                &&& forall|c: Entity|
                    final(self).spec_record(q).spec_has_child(c) == (old(self).spec_record(
                        q,
                    ).spec_has_child(c) && c != child)
                &&& forall|e: Entity, j: int|
                    old(self).spec_alive(e) ==> final(self).spec_archetype(e).spec_has(j) == old(self).spec_archetype(e).spec_has(j)
                &&& forall|e: Entity|
                    old(self).spec_alive(e) ==> final(self).spec_archetype(e).count == old(self).spec_archetype(e).count
                &&& forall|c: Entity|
                    final(self).spec_record(child).spec_has_child(c) == old(self).spec_record(
                        child,
                    ).spec_has_child(c)
            },
    {
        let alive = child.id() < self.sparse.len() && self.sparse[child.id()].is_some();
        if !alive {
            return ;
        }
        let parent_opt = match self.get(child) {
            Some(data) => data.parent(),
            None => None,
        };
        if let Some(q) = parent_opt {
            proof {
                assert(old(self).spec_alive_id(child.0 as int));
                assert(old(self).spec_record_id(child.0 as int) == old(self).spec_record(child));
                assert(old(self).spec_record_id(child.0 as int).parent == Some(q));
                assert(old(self).spec_alive(q));
                assert(q.0 != child.0);
            }
            let slot = vec_index_mut(&mut self.sparse, child.id());
            let data = slot.as_mut().unwrap();
            let unparented = data.set_parent(None);
            let ghost mid = *self;
            proof {
                assert(unparented is Ok);
            }
            let qslot = vec_index_mut(&mut self.sparse, q.id());
            let qdata = qslot.as_mut().unwrap();
            qdata.remove_child(child);
            proof {
                assert(old(self).spec_record(q).spec_has_child(old(self).spec_record_id(child.0 as int).owner));
                assert(old(self).spec_record_id(child.0 as int).owner == child);
                assert(old(self).spec_record(q).spec_has_child(child));
                lemma_wf_after_unbind(*old(self), *final(self), child, q);
                lemma_wf_queue_same(*old(self), *final(self));
            }
        }
    }

    /// Makes `child` a child of `parent`, keeping the hierarchy a forest.
    /// Binding an entity to itself or involving a dead entity is a no-op.
    /// An existing parent of `child` is unlinked first; if `child` sits on
    /// `parent`'s ancestor chain (the new edge would close a cycle), the
    /// cycle is broken by first detaching `parent` from its own parent.
    #[verifier::rlimit(100)]
    pub fn bind(&mut self, parent: Entity, child: Entity)
        requires
            old(self).wf(),
        ensures
            final(self).wf(),
            final(self).destroyed == old(self).destroyed,
            final(self).queue == old(self).queue,
            final(self).cursor == old(self).cursor,
            final(self).queued == old(self).queued,
            (parent == child || !old(self).spec_alive(parent) || !old(self).spec_alive(child))
                ==> final(self).sparse == old(self).sparse,
            !(parent == child || !old(self).spec_alive(parent) || !old(self).spec_alive(child))
                ==> {
                &&& final(self).sparse@.len() == old(self).sparse@.len()
                &&& forall|e: Entity| final(self).spec_alive(e) == old(self).spec_alive(e)
                &&& final(self).spec_parent(child) == Some(parent)
                &&& final(self).spec_record(parent).spec_has_child(child)
                &&& forall|e: Entity|
                    old(self).spec_alive(e) && e != child && e != parent ==> final(self).spec_parent(e) == old(self).spec_parent(e)
                &&& final(self).spec_parent(parent) == (if old(self).spec_would_cycle(
                    parent,
                    child,
                ) {
                    None::<Entity>
                } else {
                    old(self).spec_parent(parent)
                })
                &&& forall|e: Entity, j: int|
                    old(self).spec_alive(e) ==> final(self).spec_archetype(e).spec_has(j) == old(self).spec_archetype(e).spec_has(j)
                &&& forall|e: Entity|
                    old(self).spec_alive(e) ==> final(self).spec_archetype(e).count == old(self).spec_archetype(e).count
            },
    {
        if child.id() == parent.id() {
            return ;
        }
        let parent_alive = parent.id() < self.sparse.len() && self.sparse[parent.id()].is_some();
        if !parent_alive {
            return ;
        }
        let child_alive = child.id() < self.sparse.len() && self.sparse[child.id()].is_some();
        if !child_alive {
            return ;
        }
        proof {
            assert(parent != child);
        }
        // unlink the child's current parent, if any
        self.unbind(child);
        let ghost m1 = *self;
        proof {
            assert(m1.spec_alive(child) && m1.spec_alive(parent));
            assert(m1.spec_parent(child) is None);
            // the old ancestor chain of `parent` is intact: only `child`'s
            // own parent link changed
            assert forall|i: int|
                i != child.0 && old(self).spec_alive_id(i) implies (
            #[trigger] m1.spec_record_id(i)).parent == old(self).spec_record_id(i).parent by {
                let e = old(self).spec_record_id(i).owner;
                assert(e.0 == i);
                assert(m1.spec_parent(e) == old(self).spec_parent(e));
            }
            assert forall|i: int| old(self).spec_alive_id(i) == m1.spec_alive_id(i) by {
                let e = Entity { 0: i as usize };
                if 0 <= i < old(self).sparse@.len() {
                    assert(old(self).spec_alive(e) == m1.spec_alive(e));
                }
            }
            if old(self).spec_would_cycle(parent, child) {
                let k = choose|k: nat|
                    old(self).spec_reaches(parent.0 as int, child.0 as int, k);
                lemma_reach_to_c_same(*old(self), m1, child.0 as int, parent.0 as int, k);
            }
            if m1.spec_would_cycle(parent, child) {
                let k = choose|k: nat| m1.spec_reaches(parent.0 as int, child.0 as int, k);
                lemma_reach_to_c_same(m1, *old(self), child.0 as int, parent.0 as int, k);
            }
            assert(m1.spec_would_cycle(parent, child) == old(self).spec_would_cycle(
                parent,
                child,
            ));
        }
        proof {
            assert(m1.spec_reaches(parent.0 as int, parent.0 as int, 0nat));
        }
        // walk the ancestor chain of `parent` looking for `child`
        let mut g = parent;
        let mut cycle = false;
        loop
            invariant_except_break
                *self == m1,
                m1.wf(),
                parent != child,
                m1.spec_alive(parent),
                m1.spec_alive(child),
                m1.spec_alive(g),
                g != child,
                exists|k: nat| m1.spec_reaches(parent.0 as int, g.0 as int, k),
                forall|k: nat|
                    m1.spec_reaches(parent.0 as int, child.0 as int, k) ==> m1.spec_in_subtree(
                        g.0 as int,
                        child.0 as int,
                    ),
            ensures
                *self == m1,
                cycle == m1.spec_would_cycle(parent, child),
            decreases m1.depth@[g.0 as int],
        {
            let next = match self.get(g) {
                Some(data) => data.parent(),
                None => None,
            };
            match next {
                None => {
                    proof {
                        assert forall|k: nat|
                            !m1.spec_reaches(parent.0 as int, child.0 as int, k) by {
                            if m1.spec_reaches(parent.0 as int, child.0 as int, k) {
                                let k2 = choose|k2: nat|
                                    m1.spec_reaches(g.0 as int, child.0 as int, k2);
                                assert(g.0 != child.0);
                                assert(false);
                            }
                        }
                    }
                    cycle = false;
                    break ;
                },
                Some(next_parent) => {
                    if next_parent.id() == child.id() {
                        proof {
                            assert(next_parent == child);
                            let k = choose|k: nat|
                                m1.spec_reaches(parent.0 as int, g.0 as int, k);
                            lemma_reaches_extend(m1, parent.0 as int, g.0 as int, k);
                            assert(m1.spec_reaches(parent.0 as int, child.0 as int, (k + 1) as nat));
                        }
                        cycle = true;
                        break ;
                    }
                    proof {
                        assert(m1.spec_record_id(g.0 as int).parent == Some(next_parent));
                        assert(m1.spec_alive(next_parent));
                        assert(m1.depth@[next_parent.0 as int] < m1.depth@[g.0 as int]);
                        let k = choose|k: nat| m1.spec_reaches(parent.0 as int, g.0 as int, k);
                        lemma_reaches_extend(m1, parent.0 as int, g.0 as int, k);
                        assert forall|k2: nat|
                            m1.spec_reaches(parent.0 as int, child.0 as int, k2) implies m1
                            .spec_in_subtree(next_parent.0 as int, child.0 as int) by {
                            let k3 = choose|k3: nat|
                                m1.spec_reaches(g.0 as int, child.0 as int, k3);
                            assert(g.0 != child.0);
                            assert(m1.spec_reaches(
                                next_parent.0 as int,
                                child.0 as int,
                                (k3 - 1) as nat,
                            ));
                        }
                    }
                    g = next_parent;
                },
            }
        }
        // break the would-be cycle by detaching `parent` from its own parent
        if cycle {
            proof {
                let k = choose|k: nat| m1.spec_reaches(parent.0 as int, child.0 as int, k);
                assert(m1.spec_record_id(parent.0 as int).parent is Some);
            }
            self.unbind(parent);
        }
        let ghost m2 = *self;
        proof {
            assert(m2.wf());
            assert(m2.spec_alive(child) && m2.spec_alive(parent));
            assert(m2.spec_parent(child) is None);
            if cycle {
                assert(m2.spec_parent(parent) is None);
                assert forall|k: nat|
                    !m2.spec_reaches(parent.0 as int, child.0 as int, k) by {
                    if m2.spec_reaches(parent.0 as int, child.0 as int, k) {
                        assert(parent.0 != child.0);
                        assert(m2.spec_record_id(parent.0 as int).parent is Some);
                        assert(false);
                    }
                }
            } else {
                assert(m2 == m1);
                assert(!m2.spec_would_cycle(parent, child));
            }
            assert(!m2.spec_would_cycle(parent, child));
        }
        // attach
        let slot = vec_index_mut(&mut self.sparse, child.id());
        let data = slot.as_mut().unwrap();
        let attached = data.set_parent(Some(parent));
        proof {
            // a rejected attach would mean `parent` is a child of `child`,
            // i.e. its parent link points at `child`: a one-step cycle that
            // the walk has excluded
            if m2.spec_record(child).spec_has_child(parent) {
                assert(m2.spec_record_id(child.0 as int).spec_has_child(parent));
                assert(m2.spec_record(parent).parent == Some(m2.spec_record_id(child.0 as int).owner));
                assert(m2.spec_record_id(child.0 as int).owner == child);
                assert(reaches_in(m2.sparse@, child.0 as int, child.0 as int, 0nat));
                assert(reaches_in(m2.sparse@, parent.0 as int, child.0 as int, 1nat));
                assert(m2.spec_reaches(parent.0 as int, child.0 as int, 1nat));
                assert(false);
            }
            assert(attached is Ok);
        }
        let ghost m3 = *self;
        let pslot = vec_index_mut(&mut self.sparse, parent.id());
        let pdata = pslot.as_mut().unwrap();
        let inserted = pdata.insert_child(child);
        proof {
            // a rejected insert would mean `parent`'s own parent is `child`:
            // the same one-step cycle
            if Some(child) == m3.spec_record(parent).parent {
                assert(m2.spec_record(parent).parent == Some(child));
                assert(reaches_in(m2.sparse@, child.0 as int, child.0 as int, 0nat));
                assert(reaches_in(m2.sparse@, parent.0 as int, child.0 as int, 1nat));
                assert(m2.spec_reaches(parent.0 as int, child.0 as int, 1nat));
                assert(false);
            }
            assert(child.0 < usize::MAX);
            assert(inserted is Ok);
        }
        proof {
            let cur = *self;
            lemma_wf_after_link(m2, cur, child, parent);
            // re-rank: everything now under `child` moves above `parent`
            let shift: nat = m2.depth@[parent.0 as int] + 1;
            self.depth@ = Map::new(
                |i: int| true,
                |i: int|
                    if cur.spec_in_subtree(i, child.0 as int) {
                        (m2.depth@[i] + shift) as nat
                    } else {
                        m2.depth@[i]
                    },
            );
            let fin = *self;
            assert(fin.sparse == cur.sparse);
            assert(fin.sparse@ == cur.sparse@);
            // the new edge cannot be part of a chain from `parent` to
            // `child`: reachability to `child` ignores `child`'s own link
            assert forall|i: int| m2.spec_alive_id(i) == fin.spec_alive_id(i) by {}
            assert forall|i: int|
                i != child.0 && m2.spec_alive_id(i) implies (
            #[trigger] fin.spec_record_id(i)).parent == m2.spec_record_id(i).parent by {}
            assert(!fin.spec_in_subtree(parent.0 as int, child.0 as int)) by {
                if fin.spec_in_subtree(parent.0 as int, child.0 as int) {
                    let k = choose|k: nat|
                        fin.spec_reaches(parent.0 as int, child.0 as int, k);
                    lemma_reach_to_c_same(fin, m2, child.0 as int, parent.0 as int, k);
                    assert(false);
                }
            }
            assert forall|i: int|
                #![trigger fin.spec_record_id(i)]
                fin.spec_alive_id(i) implies (fin.spec_record_id(i).parent matches Some(p)
                ==> fin.depth@[p.0 as int] < fin.depth@[i]) by {
                if fin.spec_record_id(i).parent is Some {
                    let p = fin.spec_record_id(i).parent->0;
                    assert(cur.spec_alive_id(i));
                    assert(cur.spec_record_id(i) == fin.spec_record_id(i));
                    if i == child.0 {
                        assert(p == parent);
                        assert(reaches_in(cur.sparse@, child.0 as int, child.0 as int, 0nat));
                        assert(cur.spec_reaches(child.0 as int, child.0 as int, 0nat));
                        assert(cur.spec_in_subtree(child.0 as int, child.0 as int));
                        assert(!cur.spec_in_subtree(parent.0 as int, child.0 as int)) by {
                            if cur.spec_in_subtree(parent.0 as int, child.0 as int) {
                                let k = choose|k: nat|
                                    cur.spec_reaches(parent.0 as int, child.0 as int, k);
                                lemma_reach_to_c_same(cur, m2, child.0 as int, parent.0 as int, k);
                                assert(false);
                            }
                        }
                        assert(fin.depth@[child.0 as int] == (m2.depth@[child.0 as int]
                            + shift) as nat);
                        assert(fin.depth@[parent.0 as int] == m2.depth@[parent.0 as int]);
                        assert(fin.depth@[p.0 as int] < fin.depth@[i]);
                    } else {
                        // an old edge; both ends shift together
                        assert(m2.spec_alive_id(i));
                        assert(m2.spec_record_id(i).parent == Some(p));
                        assert(m2.depth@[p.0 as int] < m2.depth@[i]);
                        assert(cur.spec_in_subtree(i, child.0 as int) == cur.spec_in_subtree(
                            p.0 as int,
                            child.0 as int,
                        )) by {
                            if cur.spec_in_subtree(i, child.0 as int) {
                                let k = choose|k: nat| cur.spec_reaches(i, child.0 as int, k);
                                assert(reaches_in(cur.sparse@, i, child.0 as int, k));
                                assert(i != child.0);
                                assert(reaches_in(
                                    cur.sparse@,
                                    p.0 as int,
                                    child.0 as int,
                                    (k - 1) as nat,
                                ));
                                assert(cur.spec_reaches(p.0 as int, child.0 as int, (k - 1) as nat));
                            }
                            if cur.spec_in_subtree(p.0 as int, child.0 as int) {
                                let k = choose|k: nat|
                                    cur.spec_reaches(p.0 as int, child.0 as int, k);
                                assert(reaches_in(cur.sparse@, p.0 as int, child.0 as int, k));
                                assert(reaches_in(cur.sparse@, i, child.0 as int, (k + 1) as nat));
                                assert(cur.spec_reaches(i, child.0 as int, (k + 1) as nat));
                            }
                        }
                        if cur.spec_in_subtree(i, child.0 as int) {
                            assert(fin.depth@[i] == (m2.depth@[i] + shift) as nat);
                            assert(fin.depth@[p.0 as int] == (m2.depth@[p.0 as int] + shift) as nat);
                        } else {
                            assert(fin.depth@[i] == m2.depth@[i]);
                            assert(fin.depth@[p.0 as int] == m2.depth@[p.0 as int]);
                        }
                        assert(fin.depth@[p.0 as int] < fin.depth@[i]);
                    }
                }
            }
            assert(fin.wf_depth());
            lemma_wf_queue_same(m2, fin);
            assert(fin.wf_records() && fin.wf_free() && fin.wf_hier()) by {
                assert(fin.sparse == cur.sparse);
                assert(fin.destroyed == cur.destroyed);
                assert(fin.sparse@ == cur.sparse@);
                assert forall|i: int|
                    0 <= i < cur.sparse@.len() implies fin.sparse@[i] == cur.sparse@[i] by {}
                lemma_wf_after_link(m2, fin, child, parent);
            }
            // tie the final state back to the original one
            assert(*final(self) == fin);
            assert forall|e: Entity| final(self).spec_alive(e) == old(self).spec_alive(e) by {
                if old(self).spec_parent(child) is None {
                    assert(m1.sparse@ == old(self).sparse@);
                    assert(m1.spec_alive(e) == old(self).spec_alive(e));
                }
                if !cycle {
                    assert(m2.sparse@ == m1.sparse@);
                    assert(m2.spec_alive(e) == m1.spec_alive(e));
                }
                assert(fin.spec_alive(e) == cur.spec_alive(e));
            }
            assert forall|e: Entity|
                old(self).spec_alive(e) && e != child && e != parent implies final(self).spec_parent(e) == old(self).spec_parent(e) by {
                assert(m1.spec_parent(e) == old(self).spec_parent(e));
                assert(m2.spec_parent(e) == m1.spec_parent(e));
            }
            assert forall|e: Entity, j: int|
                old(self).spec_alive(e) implies final(self).spec_archetype(e).spec_has(j) == old(self).spec_archetype(e).spec_has(j) && final(self).spec_archetype(e).count == old(self).spec_archetype(e).count by {
                assert(m1.spec_alive(e) && m2.spec_alive(e) && fin.spec_alive(e));
                assert(m1.spec_archetype(e).spec_has(j) == old(self).spec_archetype(e).spec_has(j)
                    && m1.spec_archetype(e).count == old(self).spec_archetype(e).count) by {
                    if old(self).spec_parent(child) is None {
                        assert(m1.sparse@ == old(self).sparse@);
                    }
                }
                assert(m2.spec_archetype(e).spec_has(j) == m1.spec_archetype(e).spec_has(j)
                    && m2.spec_archetype(e).count == m1.spec_archetype(e).count) by {
                    if !cycle {
                        assert(m2.sparse@ == m1.sparse@);
                    } else if m1.spec_parent(parent) is None {
                        assert(m2.sparse@ == m1.sparse@);
                    }
                }
                assert(m2.spec_record_id(e.0 as int) == m2.spec_record(e));
                assert(m2.spec_archetype(e).wf());
                assert(fin.spec_archetype(e).spec_has(j) == m2.spec_archetype(e).spec_has(j)
                    && fin.spec_archetype(e).count == m2.spec_archetype(e).count) by {
                    if e == child {
                        assert(fin.spec_record(child).archetype == (Archetype {
                            dirty: true,
                            ..m2.spec_record(child).archetype
                        }));
                    } else if e == parent {
                        assert(fin.spec_record(parent).archetype == (Archetype {
                            dirty: true,
                            ..m2.spec_record(parent).archetype
                        }));
                    } else {
                        assert(fin.spec_record(e) == m2.spec_record(e));
                    }
                    crate::archetype::lemma_wf_same_bits(m2.spec_archetype(e), fin.spec_archetype(e));
                }
            }
            assert forall|e: Entity|
                old(self).spec_alive(e) implies final(self).spec_archetype(e).count == old(self).spec_archetype(e).count by {
                assert(m1.spec_alive(e) && m2.spec_alive(e) && fin.spec_alive(e));
                assert(m1.spec_archetype(e).count == old(self).spec_archetype(e).count) by {
                    if old(self).spec_parent(child) is None {
                        assert(m1.sparse@ == old(self).sparse@);
                    }
                }
                assert(m2.spec_archetype(e).count == m1.spec_archetype(e).count) by {
                    if !cycle {
                        assert(m2.sparse@ == m1.sparse@);
                    } else if m1.spec_parent(parent) is None {
                        assert(m2.sparse@ == m1.sparse@);
                    }
                }
                assert(fin.spec_archetype(e).count == m2.spec_archetype(e).count) by {
                    if e == child {
                        assert(fin.spec_record(child).archetype == (Archetype {
                            dirty: true,
                            ..m2.spec_record(child).archetype
                        }));
                    } else if e == parent {
                        assert(fin.spec_record(parent).archetype == (Archetype {
                            dirty: true,
                            ..m2.spec_record(parent).archetype
                        }));
                    } else {
                        assert(fin.spec_record(e) == m2.spec_record(e));
                    }
                }
            }
        }
    }
}

} // verus!
