//! A minimal local entity store meeting the contract the replication
//! core assumes of its storage collaborator: enumerate entities with a
//! component, create and delete entities, attach and overwrite
//! components. The replicator reads a snapshot out of it; the applier
//! writes a received snapshot back into it.

use vstd::prelude::*;

use crate::components::{Color, Position, Rectangle};

verus! {

/// A network-level entity identifier, unique per session.
#[derive(Clone, Copy, PartialEq, Eq, Structural, Debug)]
pub struct NetworkIdentifier {
    pub id: u32,
}

/// Mints NetworkIdentifiers: ids are handed out in ascending order
/// and never reused within a session.
pub struct NetworkIdAllocator {
    pub next: u32,
}

impl NetworkIdAllocator {
    pub fn new() -> (r: NetworkIdAllocator)
        ensures
            r.next == 0,
    {
        NetworkIdAllocator { next: 0 }
    }

    /// The next identifier: equal to the allocator's counter, which
    /// then moves past it — so no two calls return the same id.
    pub fn next_id(&mut self) -> (r: NetworkIdentifier)
        requires
            old(self).next < u32::MAX,
        ensures
            r.id == old(self).next,
            final(self).next == old(self).next + 1,
    {
        let id = self.next;
        self.next = self.next + 1;
        NetworkIdentifier { id }
    }
}

/// The first value recorded for entity `e`, scanning from index `i`.
pub open spec fn store_lookup_from<V>(s: Seq<(u64, V)>, e: u64, i: int) -> Option<V>
    decreases s.len() - i,
{
    if i < 0 || i >= s.len() {
        None
    } else if s[i].0 == e {
        Some(s[i].1)
    } else {
        store_lookup_from(s, e, i + 1)
    }
}

/// The value a component storage records for entity `e`, if any.
pub open spec fn store_lookup<V>(s: Seq<(u64, V)>, e: u64) -> Option<V> {
    store_lookup_from(s, e, 0)
}

/// The entity recorded for NetId `id`, scanning from index `i`.
pub open spec fn map_lookup_from(s: Seq<(u32, u64)>, id: u32, i: int) -> Option<u64>
    decreases s.len() - i,
{
    if i < 0 || i >= s.len() {
        None
    } else if s[i].0 == id {
        Some(s[i].1)
    } else {
        map_lookup_from(s, id, i + 1)
    }
}

/// The local entity a NetId is bound to, if any.
pub open spec fn map_lookup(s: Seq<(u32, u64)>, id: u32) -> Option<u64> {
    map_lookup_from(s, id, 0)
}

/// The client's NetId-to-local-entity map.
pub struct NetworkIdMapping {
    pub entries: Vec<(u32, u64)>,
}

impl NetworkIdMapping {
    pub fn new() -> (r: NetworkIdMapping)
        ensures
            r.entries@.len() == 0,
    {
        NetworkIdMapping { entries: Vec::new() }
    }

    /// The local entity bound to `id`, if any.
    pub fn get(&self, id: u32) -> (r: Option<u64>)
        ensures
            r == map_lookup(self.entries@, id),
    {
        let n = self.entries.len();
        for i in 0..n
            invariant
                n == self.entries@.len(),
                map_lookup(self.entries@, id) == map_lookup_from(self.entries@, id, i as int),
        {
            if self.entries[i].0 == id {
                return Some(self.entries[i].1);
            }
        }
        None
    }
}

/// Read the first value a storage records for entity `e`.
pub fn storage_get<V: Copy>(s: &Vec<(u64, V)>, e: u64) -> (r: Option<V>)
    ensures
        r == store_lookup(s@, e),
{
    let n = s.len();
    for i in 0..n
        invariant
            n == s@.len(),
            store_lookup(s@, e) == store_lookup_from(s@, e, i as int),
    {
        if s[i].0 == e {
            return Some(s[i].1);
        }
    }
    None
}

/// A key occurring nowhere is never found.
pub proof fn lemma_absent_lookup_none<V>(s: Seq<(u64, V)>, e: u64, i: int)
    requires
        0 <= i,
        forall|q: int| i <= q < s.len() ==> (#[trigger] s[q]).0 != e,
    ensures
        store_lookup_from(s, e, i) is None,
    decreases s.len() - i,
{
    if i < s.len() {
        lemma_absent_lookup_none(s, e, i + 1);
    }
}

/// Updating the first entry for key `e` rewrites what lookups see for
/// `e` and nothing else.
pub proof fn lemma_lookup_update<V>(s: Seq<(u64, V)>, idx: int, e: u64, v: V, x: u64, i: int)
    requires
        0 <= idx < s.len(),
        s[idx].0 == e,
        forall|q: int| 0 <= q < idx ==> (#[trigger] s[q]).0 != e,
        0 <= i,
    ensures
        store_lookup_from(s.update(idx, (e, v)), x, i) == (if x == e && i <= idx {
            Some(v)
        } else {
            store_lookup_from(s, x, i)
        }),
    decreases s.len() - i,
{
    if i < s.len() {
        lemma_lookup_update(s, idx, e, v, x, i + 1);
    }
}

/// Appending an entry for a key changes lookups only where every
/// earlier entry misses.
pub proof fn lemma_lookup_push<V>(s: Seq<(u64, V)>, e: u64, v: V, x: u64, i: int)
    requires
        0 <= i,
    ensures
        store_lookup_from(s.push((e, v)), x, i) == (match store_lookup_from(s, x, i) {
            Some(w) => Some(w),
            None => if x == e && i <= s.len() {
                Some(v)
            } else {
                None
            },
        }),
    decreases s.len() - i,
{
    if i < s.len() {
        lemma_lookup_push(s, e, v, x, i + 1);
    } else if i == s.len() {
        assert(s.push((e, v))[i] == (e, v));
        assert(store_lookup_from(s.push((e, v)), x, i + 1) is None);
        assert(store_lookup_from(s, x, i) is None);
    }
}

/// Attach or overwrite: after the call the storage records `v` for
/// `e`, and exactly what it did before for every other entity.
pub fn storage_set<V: Copy>(s: &mut Vec<(u64, V)>, e: u64, v: V)
    ensures
        forall|x: u64|
            #[trigger] store_lookup(final(s)@, x) == (if x == e {
                Some(v)
            } else {
                store_lookup(old(s)@, x)
            }),
        forall|x: u64|
            store_lookup(old(s)@, x) is None && x != e ==> store_lookup(final(s)@, x) is None,
{
    let n = s.len();
    for i in 0..n
        invariant
            n == s@.len(),
            s@ == old(s)@,
            forall|q: int| 0 <= q < i ==> (#[trigger] s@[q]).0 != e,
    {
        if s[i].0 == e {
            s[i] = (e, v);
            proof {
                assert forall|x: u64|
                    #[trigger] store_lookup(s@, x) == (if x == e {
                        Some(v)
                    } else {
                        store_lookup(old(s)@, x)
                    }) by {
                    lemma_lookup_update(old(s)@, i as int, e, v, x, 0);
                }
            }
            return ;
        }
    }
    let ghost prior = s@;
    proof {
        lemma_absent_lookup_none(prior, e, 0);
    }
    s.push((e, v));
    proof {
        assert forall|x: u64|
            #[trigger] store_lookup(s@, x) == (if x == e {
                Some(v)
            } else {
                store_lookup(prior, x)
            }) by {
            lemma_lookup_push(prior, e, v, x, 0);
        }
    }
}

} // verus!

verus! {

/// `s` with every entry for entity `e` removed, order kept.
pub open spec fn without_key<V>(s: Seq<(u64, V)>, e: u64) -> Seq<(u64, V)>
    decreases s.len(),
{
    if s.len() == 0 {
        Seq::<(u64, V)>::empty()
    } else if s[0].0 == e {
        without_key(s.skip(1), e)
    } else {
        seq![s[0]] + without_key(s.skip(1), e)
    }
}

/// Scanning from `i + 1` is scanning the tail from `i`.
pub proof fn lemma_lookup_shift<V>(t: Seq<(u64, V)>, x: u64, i: int)
    requires
        0 <= i,
        t.len() >= 1,
    ensures
        store_lookup_from(t, x, i + 1) == store_lookup_from(t.skip(1), x, i),
    decreases t.len() - i,
{
    assert(t.skip(1).len() == t.len() - 1);
    if i + 1 < t.len() {
        assert(t.skip(1)[i] == t[i + 1]);
        lemma_lookup_shift(t, x, i + 1);
    }
}

/// Removing an entity's entries hides that entity from lookups and no
/// other.
pub proof fn lemma_without_key_lookup<V>(s: Seq<(u64, V)>, e: u64, x: u64)
    ensures
        x != e ==> store_lookup(without_key(s, e), x) == store_lookup(s, x),
        store_lookup(without_key(s, e), e) is None,
    decreases s.len(),
{
    if s.len() > 0 {
        lemma_without_key_lookup(s.skip(1), e, x);
        lemma_without_key_lookup(s.skip(1), e, e);
        lemma_lookup_shift(s, x, 0);
        lemma_lookup_shift(s, e, 0);
        if s[0].0 != e {
            let c = seq![s[0]] + without_key(s.skip(1), e);
            assert(c[0] == s[0]);
            assert(c.skip(1) =~= without_key(s.skip(1), e));
            lemma_lookup_shift(c, x, 0);
            lemma_lookup_shift(c, e, 0);
        }
    }
}

/// Remove every entry a storage holds for entity `e`.
pub fn storage_remove<V: Copy>(s: &mut Vec<(u64, V)>, e: u64)
    ensures
        final(s)@ == without_key(old(s)@, e),
        store_lookup(final(s)@, e) is None,
        forall|x: u64| x != e ==> store_lookup(final(s)@, x) == store_lookup(old(s)@, x),
{
    let mut kept: Vec<(u64, V)> = Vec::new();
    let n = s.len();
    proof {
        assert(s@.skip(0) =~= s@);
    }
    for i in 0..n
        invariant
            n == s@.len(),
            s@ == old(s)@,
            without_key(s@, e) == kept@ + without_key(s@.skip(i as int), e),
    {
        proof {
            assert(s@.skip(i as int)[0] == s@[i as int]);
            assert(s@.skip(i as int).skip(1) =~= s@.skip(i as int + 1));
        }
        let entry = s[i];
        if entry.0 != e {
            kept.push(entry);
            proof {
                assert(kept@ + without_key(s@.skip(i as int + 1), e) =~= without_key(s@, e));
            }
        }
    }
    proof {
        assert(s@.skip(n as int) =~= Seq::<(u64, V)>::empty());
        assert(kept@ + without_key(s@.skip(n as int), e) =~= kept@);
    }
    *s = kept;
    proof {
        assert forall|x: u64| x != e implies store_lookup(final(s)@, x) == store_lookup(
            old(s)@,
            x,
        ) by {
            lemma_without_key_lookup(old(s)@, e, x);
        }
        lemma_without_key_lookup(old(s)@, e, e);
    }
}

/// `s` with every occurrence of entity `e` removed, order kept.
pub open spec fn without_entity(s: Seq<u64>, e: u64) -> Seq<u64>
    decreases s.len(),
{
    if s.len() == 0 {
        Seq::<u64>::empty()
    } else {
        without_entity(s.drop_last(), e) + (if s.last() == e {
            Seq::<u64>::empty()
        } else {
            seq![s.last()]
        })
    }
}

/// What remains after removing `e` holds exactly the other entities.
pub proof fn lemma_without_entity_contains(s: Seq<u64>, e: u64, x: u64)
    ensures
        without_entity(s, e).contains(x) <==> (s.contains(x) && x != e),
    decreases s.len(),
{
    if s.len() > 0 {
        lemma_without_entity_contains(s.drop_last(), e, x);
        assert(s.contains(x) <==> (s.drop_last().contains(x) || s.last() == x)) by {
            if s.contains(x) {
                let q = choose|q: int| 0 <= q < s.len() && s[q] == x;
                if q < s.len() - 1 {
                    assert(s.drop_last()[q] == x);
                }
            }
            if s.drop_last().contains(x) {
                let q = choose|q: int| 0 <= q < s.drop_last().len() && s.drop_last()[q] == x;
                assert(s[q] == x);
            }
        }
        let w = without_entity(s, e);
        let wd = without_entity(s.drop_last(), e);
        if s.last() == e {
            assert(w =~= wd);
        } else {
            assert(w.contains(x) <==> (wd.contains(x) || s.last() == x)) by {
                if w.contains(x) {
                    let q = choose|q: int| 0 <= q < w.len() && w[q] == x;
                    if q < wd.len() {
                        assert(wd[q] == x);
                    }
                }
                if wd.contains(x) {
                    let q = choose|q: int| 0 <= q < wd.len() && wd[q] == x;
                    assert(w[q] == x);
                }
                if s.last() == x {
                    assert(w[w.len() - 1] == x);
                }
            }
        }
    }
}

/// The minimal local entity store: live entity handles, a counter
/// minting fresh ones, and one keyed storage per component type.
pub struct LocalWorld {
    pub next_entity: u64,
    pub entities: Vec<u64>,
    pub net_ids: Vec<(u64, u32)>,
    pub positions: Vec<(u64, Position)>,
    pub colors: Vec<(u64, Color)>,
    pub rectangles: Vec<(u64, Rectangle)>,
}

impl LocalWorld {
    /// Freshness: the counter lies above every live handle and every
    /// handle any storage mentions.
    pub open spec fn wf(&self) -> bool {
        &&& (forall|q: int|
            0 <= q < self.entities@.len() ==> #[trigger] self.entities@[q] < self.next_entity)
        &&& (forall|x: u64| x >= self.next_entity ==> store_lookup(self.net_ids@, x) is None)
        &&& (forall|x: u64| x >= self.next_entity ==> store_lookup(self.positions@, x) is None)
        &&& (forall|x: u64| x >= self.next_entity ==> store_lookup(self.colors@, x) is None)
        &&& (forall|x: u64| x >= self.next_entity ==> store_lookup(self.rectangles@, x) is None)
    }

    pub fn new() -> (r: LocalWorld)
        ensures
            r.wf(),
            r.next_entity == 0,
            r.entities@.len() == 0,
            r.net_ids@.len() == 0,
            r.positions@.len() == 0,
            r.colors@.len() == 0,
            r.rectangles@.len() == 0,
    {
        let r = LocalWorld {
            next_entity: 0,
            entities: Vec::new(),
            net_ids: Vec::new(),
            positions: Vec::new(),
            colors: Vec::new(),
            rectangles: Vec::new(),
        };
        proof {
            assert forall|x: u64| x >= r.next_entity implies store_lookup(r.net_ids@, x)
                is None by {}
        }
        r
    }

    /// Mint one fresh entity: never seen before, alive afterwards.
    pub fn create_entity(&mut self) -> (e: u64)
        requires
            old(self).wf(),
            old(self).next_entity < u64::MAX,
        ensures
            final(self).wf(),
            e == old(self).next_entity,
            !old(self).entities@.contains(e),
            final(self).next_entity == old(self).next_entity + 1,
            final(self).entities@ == old(self).entities@.push(e),
            final(self).net_ids@ == old(self).net_ids@,
            final(self).positions@ == old(self).positions@,
            final(self).colors@ == old(self).colors@,
            final(self).rectangles@ == old(self).rectangles@,
            store_lookup(final(self).positions@, e) is None,
            store_lookup(final(self).colors@, e) is None,
            store_lookup(final(self).rectangles@, e) is None,
    {
        let e = self.next_entity;
        self.entities.push(e);
        self.next_entity = self.next_entity + 1;
        e
    }

    /// Delete an entity: it is no longer alive and no storage still
    /// records anything for it; every other entity is untouched.
    pub fn delete_entity(&mut self, e: u64)
        requires
            old(self).wf(),
        ensures
            final(self).wf(),
            final(self).next_entity == old(self).next_entity,
            forall|x: u64|
                #[trigger] final(self).entities@.contains(x) <==> (old(self).entities@.contains(x)
                    && x != e),
            store_lookup(final(self).positions@, e) is None,
            store_lookup(final(self).colors@, e) is None,
            store_lookup(final(self).rectangles@, e) is None,
            store_lookup(final(self).net_ids@, e) is None,
            forall|x: u64|
                x != e ==> store_lookup(final(self).positions@, x) == store_lookup(
                    old(self).positions@,
                    x,
                ),
            forall|x: u64|
                x != e ==> store_lookup(final(self).colors@, x) == store_lookup(
                    old(self).colors@,
                    x,
                ),
            forall|x: u64|
                x != e ==> store_lookup(final(self).rectangles@, x) == store_lookup(
                    old(self).rectangles@,
                    x,
                ),
            forall|x: u64|
                x != e ==> store_lookup(final(self).net_ids@, x) == store_lookup(
                    old(self).net_ids@,
                    x,
                ),
    {
        let mut kept: Vec<u64> = Vec::new();
        let n = self.entities.len();
        for i in 0..n
            invariant
                n == self.entities@.len(),
                self == old(self),
                kept@ =~= without_entity(self.entities@.take(i as int), e),
        {
            let x = self.entities[i];
            if x != e {
                kept.push(x);
            }
            proof {
                assert(self.entities@.take(i as int + 1).drop_last() =~= self.entities@.take(
                    i as int,
                ));
                assert(kept@ =~= without_entity(self.entities@.take(i as int + 1), e));
            }
        }
        proof {
            assert(self.entities@.take(n as int) =~= self.entities@);
        }
        let ghost old_entities = self.entities@;
        self.entities = kept;
        storage_remove(&mut self.net_ids, e);
        storage_remove(&mut self.positions, e);
        storage_remove(&mut self.colors, e);
        storage_remove(&mut self.rectangles, e);
        proof {
            assert forall|x: u64| #[trigger] final(self).entities@.contains(x) <==> (
            old_entities.contains(x) && x != e) by {
                lemma_without_entity_contains(old_entities, e, x);
            }
            assert forall|q: int|
                0 <= q < final(self).entities@.len() implies #[trigger] (final(self).entities@[q])
                < final(self).next_entity by {
                assert(final(self).entities@.contains(final(self).entities@[q]));
                lemma_without_entity_contains(old_entities, e, final(self).entities@[q]);
                let x = final(self).entities@[q];
                let w = choose|w: int| 0 <= w < old_entities.len() && old_entities[w] == x;
                assert(old_entities[w] < old(self).next_entity);
            }
        }
    }
}

} // verus!

use crate::bitmask::NetworkBitmask;
use crate::packet::NetworkPacket;

verus! {

/// The entity carrying NetId `id`, scanning from index `i`.
pub open spec fn entity_for_from(s: Seq<(u64, u32)>, id: u32, i: int) -> Option<u64>
    decreases s.len() - i,
{
    if i < 0 || i >= s.len() {
        None
    } else if s[i].1 == id {
        Some(s[i].0)
    } else {
        entity_for_from(s, id, i + 1)
    }
}

/// The first entity recorded as carrying NetId `id`, if any.
pub open spec fn entity_for(s: Seq<(u64, u32)>, id: u32) -> Option<u64> {
    entity_for_from(s, id, 0)
}

/// Find the entity carrying NetId `id`.
pub fn find_entity_for(net_ids: &Vec<(u64, u32)>, id: u32) -> (r: Option<u64>)
    ensures
        r == entity_for(net_ids@, id),
{
    let n = net_ids.len();
    for i in 0..n
        invariant
            n == net_ids@.len(),
            entity_for(net_ids@, id) == entity_for_from(net_ids@, id, i as int),
    {
        if net_ids[i].1 == id {
            return Some(net_ids[i].0);
        }
    }
    None
}

/// The component value replication records for NetId `id`: the value
/// stored for the entity carrying that id, if both exist.
pub open spec fn component_of<V>(
    storage: Seq<(u64, V)>,
    net_ids: Seq<(u64, u32)>,
    id: u32,
) -> Option<V> {
    match entity_for(net_ids, id) {
        Some(e) => store_lookup(storage, e),
        None => None,
    }
}

/// Gather one component field across the world: for each NetId in
/// `entities_id`, in order, the value stored for its entity — a set
/// bit and a value where one exists, a clear bit where none does.
/// Every NetId the world knows must stand in `entities_id`: an entity
/// carrying a NetId outside the packet's ordering is a logic bug in
/// the caller's enumeration, so the precondition rules it out.
pub fn replicate<T: Copy>(
    storage: &Vec<(u64, T)>,
    net_ids: &Vec<(u64, u32)>,
    entities_id: &Vec<u32>,
) -> (r: NetworkBitmask<T>)
    requires
        forall|q: int|
            0 <= q < net_ids@.len() ==> entities_id@.contains((#[trigger] net_ids@[q]).1),
    ensures
        r.wf(),
        r.len() == entities_id@.len(),
        forall|p: int|
            0 <= p < entities_id@.len() ==> r.slots()[p] == component_of(
                storage@,
                net_ids@,
                entities_id@[p],
            ),
{
    let ghost target = Seq::new(
        entities_id@.len(),
        |p: int| component_of(storage@, net_ids@, entities_id@[p]),
    );
    let mut r: NetworkBitmask<T> = NetworkBitmask::new();
    let n = entities_id.len();
    for p in 0..n
        invariant
            n == entities_id@.len(),
            n <= usize::MAX,
            target == Seq::new(
                entities_id@.len(),
                |p: int| component_of(storage@, net_ids@, entities_id@[p]),
            ),
            r.wf(),
            r.len() == p,
            r.slots() =~= target.take(p as int),
    {
        let value = match find_entity_for(net_ids, entities_id[p]) {
            Some(e) => storage_get(storage, e),
            None => None,
        };
        match value {
            Some(v) => {
                r.add_value(v);
            },
            None => {
                r.push_absent();
            },
        }
        proof {
            assert(r.slots() =~= target.take(p as int + 1));
        }
    }
    proof {
        assert(r.slots() =~= target);
    }
    r
}

/// The NetIds the world's id storage lists, in storage order.
pub open spec fn world_net_ids(s: Seq<(u64, u32)>) -> Seq<u32> {
    Seq::new(s.len(), |q: int| s[q].1)
}

impl NetworkPacket {
    /// Build the snapshot of the world at `frame`: enumerate every
    /// NetId the world knows, in storage order — that ordering is
    /// authoritative for the packet — and gather each registered
    /// component field against it.
    pub fn new(world: &LocalWorld, frame: u32) -> (r: NetworkPacket)
        ensures
            r.wf(),
            r.frame == frame,
            r.entities_id@ == world_net_ids(world.net_ids@),
            forall|p: int|
                0 <= p < r.entities_id@.len() ==> r.positions.slots()[p] == component_of(
                    world.positions@,
                    world.net_ids@,
                    r.entities_id@[p],
                ),
            forall|p: int|
                0 <= p < r.entities_id@.len() ==> r.colors.slots()[p] == component_of(
                    world.colors@,
                    world.net_ids@,
                    r.entities_id@[p],
                ),
            forall|p: int|
                0 <= p < r.entities_id@.len() ==> r.rectangles.slots()[p] == component_of(
                    world.rectangles@,
                    world.net_ids@,
                    r.entities_id@[p],
                ),
    {
        let mut entities_id: Vec<u32> = Vec::new();
        let n = world.net_ids.len();
        for q in 0..n
            invariant
                n == world.net_ids@.len(),
                entities_id@ =~= world_net_ids(world.net_ids@).take(q as int),
        {
            entities_id.push(world.net_ids[q].1);
            proof {
                assert(entities_id@ =~= world_net_ids(world.net_ids@).take(q as int + 1));
            }
        }
        proof {
            assert(entities_id@ =~= world_net_ids(world.net_ids@));
            assert forall|q: int| 0 <= q < world.net_ids@.len() implies entities_id@.contains(
                (#[trigger] world.net_ids@[q]).1,
            ) by {
                assert(entities_id@[q] == world.net_ids@[q].1);
            }
        }
        let positions = replicate(&world.positions, &world.net_ids, &entities_id);
        let colors = replicate(&world.colors, &world.net_ids, &entities_id);
        let rectangles = replicate(&world.rectangles, &world.net_ids, &entities_id);
        NetworkPacket { frame, entities_id, positions, colors, rectangles }
    }
}

} // verus!

verus! {


/// An absent NetId occurs nowhere in the map.
pub proof fn lemma_map_none_absent(s: Seq<(u32, u64)>, id: u32, i: int)
    requires
        0 <= i,
        map_lookup_from(s, id, i) is None,
    ensures
        forall|q: int| i <= q < s.len() ==> (#[trigger] s[q]).0 != id,
    decreases s.len() - i,
{
    if i < s.len() {
        lemma_map_none_absent(s, id, i + 1);
    }
}

/// Appending a binding changes lookups only for a NetId every earlier
/// entry misses.
pub proof fn lemma_map_lookup_push(s: Seq<(u32, u64)>, id: u32, e: u64, x: u32, i: int)
    requires
        0 <= i,
    ensures
        map_lookup_from(s.push((id, e)), x, i) == (match map_lookup_from(s, x, i) {
            Some(w) => Some(w),
            None => if x == id && i <= s.len() {
                Some(e)
            } else {
                None
            },
        }),
    decreases s.len() - i,
{
    if i < s.len() {
        lemma_map_lookup_push(s, id, e, x, i + 1);
    } else if i == s.len() {
        assert(s.push((id, e))[i] == (id, e));
        assert(map_lookup_from(s.push((id, e)), x, i + 1) is None);
        assert(map_lookup_from(s, x, i) is None);
    }
}

/// Scanning from `i + 1` is scanning the tail from `i`.
pub proof fn lemma_map_shift(t: Seq<(u32, u64)>, x: u32, i: int)
    requires
        0 <= i,
        t.len() >= 1,
    ensures
        map_lookup_from(t, x, i + 1) == map_lookup_from(t.skip(1), x, i),
    decreases t.len() - i,
{
    assert(t.skip(1).len() == t.len() - 1);
    if i + 1 < t.len() {
        assert(t.skip(1)[i] == t[i + 1]);
        lemma_map_shift(t, x, i + 1);
    }
}

/// With no NetId bound twice, every entry is what lookup finds.
pub proof fn lemma_map_entry_lookup(s: Seq<(u32, u64)>, q: int)
    requires
        0 <= q < s.len(),
        forall|a: int, b: int| 0 <= a < b < s.len() ==> (#[trigger] s[a]).0 != (#[trigger] s[b]).0,
    ensures
        map_lookup(s, s[q].0) == Some(s[q].1),
    decreases q,
{
    if q == 0 {
    } else {
        lemma_map_shift(s, s[q].0, 0);
        assert forall|a: int, b: int|
            0 <= a < b < s.skip(1).len() implies (#[trigger] s.skip(1)[a]).0 != (#[trigger] s.skip(
            1,
        )[b]).0 by {
            assert(s.skip(1)[a] == s[a + 1] && s.skip(1)[b] == s[b + 1]);
        }
        assert(s.skip(1)[q - 1] == s[q]);
        lemma_map_entry_lookup(s.skip(1), q - 1);
        assert(s[0].0 != s[q].0);
    }
}

/// The map restricted to the NetIds a packet lists, order kept.
pub open spec fn mapping_kept(s: Seq<(u32, u64)>, ids: Seq<u32>) -> Seq<(u32, u64)>
    decreases s.len(),
{
    if s.len() == 0 {
        Seq::<(u32, u64)>::empty()
    } else if ids.contains(s[0].0) {
        seq![s[0]] + mapping_kept(s.skip(1), ids)
    } else {
        mapping_kept(s.skip(1), ids)
    }
}

/// The entities bound to NetIds a packet no longer lists, in map order.
pub open spec fn removed_entities(s: Seq<(u32, u64)>, ids: Seq<u32>) -> Seq<u64>
    decreases s.len(),
{
    if s.len() == 0 {
        Seq::<u64>::empty()
    } else if ids.contains(s[0].0) {
        removed_entities(s.skip(1), ids)
    } else {
        seq![s[0].1] + removed_entities(s.skip(1), ids)
    }
}

/// Restriction keeps lookups for listed NetIds and hides the rest.
pub proof fn lemma_mapping_kept_lookup(s: Seq<(u32, u64)>, ids: Seq<u32>, x: u32)
    ensures
        map_lookup(mapping_kept(s, ids), x) == (if ids.contains(x) {
            map_lookup(s, x)
        } else {
            None::<u64>
        }),
    decreases s.len(),
{
    if s.len() > 0 {
        lemma_mapping_kept_lookup(s.skip(1), ids, x);
        lemma_map_shift(s, x, 0);
        if ids.contains(s[0].0) {
            let c = seq![s[0]] + mapping_kept(s.skip(1), ids);
            assert(c[0] == s[0]);
            assert(c.skip(1) =~= mapping_kept(s.skip(1), ids));
            if c.len() >= 1 {
                lemma_map_shift(c, x, 0);
            }
        }
    }
}

/// Restriction keeps the no-NetId-bound-twice property.
pub proof fn lemma_mapping_kept_distinct(s: Seq<(u32, u64)>, ids: Seq<u32>)
    requires
        forall|a: int, b: int| 0 <= a < b < s.len() ==> (#[trigger] s[a]).0 != (#[trigger] s[b]).0,
    ensures
        forall|a: int, b: int|
            0 <= a < b < mapping_kept(s, ids).len() ==> (#[trigger] mapping_kept(s, ids)[a]).0 != (
            #[trigger] mapping_kept(s, ids)[b]).0,
        forall|q: int|
            0 <= q < mapping_kept(s, ids).len() ==> exists|w: int|
                0 <= w < s.len() && (#[trigger] s[w]) == #[trigger] mapping_kept(s, ids)[q],
    decreases s.len(),
{
    if s.len() > 0 {
        assert forall|a: int, b: int|
            0 <= a < b < s.skip(1).len() implies (#[trigger] s.skip(1)[a]).0 != (#[trigger] s.skip(
            1,
        )[b]).0 by {
            assert(s.skip(1)[a] == s[a + 1] && s.skip(1)[b] == s[b + 1]);
        }
        lemma_mapping_kept_distinct(s.skip(1), ids);
        let k = mapping_kept(s, ids);
        let kt = mapping_kept(s.skip(1), ids);
        assert forall|q: int| #![trigger kt[q]] 0 <= q < kt.len() implies exists|w: int|
            0 <= w < s.len() && (#[trigger] s[w]) == kt[q] by {
            let w0 = choose|w0: int| 0 <= w0 < s.skip(1).len() && s.skip(1)[w0] == kt[q];
            assert(s[w0 + 1] == kt[q]);
        }
        if ids.contains(s[0].0) {
            assert(k == seq![s[0]] + kt);
            assert forall|a: int, b: int| 0 <= a < b < k.len() implies (#[trigger] k[a]).0 != (
            #[trigger] k[b]).0 by {
                if a == 0 {
                    assert(k[b] == kt[b - 1]);
                    let w = choose|w: int| 0 <= w < s.len() && s[w] == kt[b - 1];
                    assert(s[0].0 != s[w].0 || w == 0);
                    if w == 0 {
                        assert(s.skip(1)[choose|w0: int|
                            0 <= w0 < s.skip(1).len() && s.skip(1)[w0] == kt[b - 1]] == kt[b
                            - 1]);
                    }
                } else {
                    assert(k[a] == kt[a - 1] && k[b] == kt[b - 1]);
                }
            }
            assert forall|q: int| #![trigger k[q]] 0 <= q < k.len() implies exists|w: int|
                0 <= w < s.len() && (#[trigger] s[w]) == k[q] by {
                if q == 0 {
                    assert(s[0] == k[0]);
                } else {
                    assert(k[q] == kt[q - 1]);
                }
            }
        }
    }
}

/// An entity stands among the removed exactly when some entry binds a
/// NetId the packet no longer lists to it.
pub proof fn lemma_removed_entities_contains(s: Seq<(u32, u64)>, ids: Seq<u32>, e: u64)
    ensures
        removed_entities(s, ids).contains(e) <==> exists|q: int|
            0 <= q < s.len() && (#[trigger] s[q]).1 == e && !ids.contains(s[q].0),
    decreases s.len(),
{
    if s.len() > 0 {
        lemma_removed_entities_contains(s.skip(1), ids, e);
        let r = removed_entities(s, ids);
        let rt = removed_entities(s.skip(1), ids);
        assert((exists|q: int|
            0 <= q < s.skip(1).len() && (#[trigger] s.skip(1)[q]).1 == e && !ids.contains(
                s.skip(1)[q].0,
            )) <==> (exists|q: int|
            1 <= q < s.len() && (#[trigger] s[q]).1 == e && !ids.contains(s[q].0))) by {
            if exists|q: int|
                0 <= q < s.skip(1).len() && (#[trigger] s.skip(1)[q]).1 == e && !ids.contains(
                    s.skip(1)[q].0,
                ) {
                let q = choose|q: int|
                    0 <= q < s.skip(1).len() && (#[trigger] s.skip(1)[q]).1 == e && !ids.contains(
                        s.skip(1)[q].0,
                    );
                assert(s[q + 1] == s.skip(1)[q]);
            }
            if exists|q: int| 1 <= q < s.len() && (#[trigger] s[q]).1 == e && !ids.contains(
                s[q].0,
            ) {
                let q = choose|q: int|
                    1 <= q < s.len() && (#[trigger] s[q]).1 == e && !ids.contains(s[q].0);
                assert(s.skip(1)[q - 1] == s[q]);
            }
        }
        if ids.contains(s[0].0) {
            assert(r == rt);
        } else {
            assert(r == seq![s[0].1] + rt);
            assert(r.contains(e) <==> (s[0].1 == e || rt.contains(e))) by {
                if r.contains(e) {
                    let q = choose|q: int| 0 <= q < r.len() && r[q] == e;
                    if q > 0 {
                        assert(rt[q - 1] == e);
                    }
                }
                if rt.contains(e) {
                    let q = choose|q: int| 0 <= q < rt.len() && rt[q] == e;
                    assert(r[q + 1] == e);
                }
                if s[0].1 == e {
                    assert(r[0] == e);
                }
            }
        }
    }
}

/// Whether the list holds `id`.
pub fn ids_contains(ids: &Vec<u32>, id: u32) -> (r: bool)
    ensures
        r == ids@.contains(id),
{
    let n = ids.len();
    for i in 0..n
        invariant
            n == ids@.len(),
            forall|q: int| 0 <= q < i ==> ids@[q] != id,
    {
        if ids[i] == id {
            return true;
        }
    }
    false
}

/// No NetId listed twice.
pub open spec fn distinct_ids(ids: Seq<u32>) -> bool {
    forall|p: int, q: int| 0 <= p < q < ids.len() ==> ids[p] != ids[q]
}

/// Decide at run time whether a received packet's entity ids are all
/// distinct; the applier accepts only such packets.
pub fn distinct_ids_check(ids: &Vec<u32>) -> (r: bool)
    ensures
        r == distinct_ids(ids@),
{
    let n = ids.len();
    for p in 0..n
        invariant
            n == ids@.len(),
            forall|a: int, b: int| 0 <= a < b < p ==> ids@[a] != ids@[b],
    {
        for q in 0..p
            invariant
                n == ids@.len(),
                p < n,
                forall|a: int, b: int| 0 <= a < b < p ==> ids@[a] != ids@[b],
                forall|a: int| 0 <= a < q ==> ids@[a] != ids@[p as int],
        {
            if ids[q] == ids[p] {
                return false;
            }
        }
    }
    true
}

/// The mapping invariant the applier maintains: no NetId bound twice,
/// every bound entity alive, below the world's entity counter, and no
/// two NetIds bound to the same entity.
pub open spec fn mapping_ok(m: Seq<(u32, u64)>, w: LocalWorld) -> bool {
    &&& (forall|a: int, b: int| 0 <= a < b < m.len() ==> (#[trigger] m[a]).0 != (#[trigger] m[b]).0)
    &&& (forall|id: u32|
        #[trigger] map_lookup(m, id) is Some ==> map_lookup(m, id).unwrap() < w.next_entity
            && w.entities@.contains(map_lookup(m, id).unwrap()))
    &&& (forall|id1: u32, id2: u32|
        id1 != id2 && #[trigger] map_lookup(m, id1) is Some && #[trigger] map_lookup(m, id2)
            is Some ==> map_lookup(m, id1) != map_lookup(m, id2))
}

} // verus!

verus! {

/// Whether some masked entry of a field is bound to entity `e`.
pub open spec fn field_target<V>(
    slots: Seq<Option<V>>,
    ids: Seq<u32>,
    m: Seq<(u32, u64)>,
    e: u64,
) -> bool {
    exists|p: int|
        0 <= p < ids.len() && #[trigger] slots[p] is Some && map_lookup(m, ids[p]) == Some(e)
}

/// Write one field of a snapshot into its component storage: for each
/// masked entry, attach or overwrite the value on the entity its
/// NetId is bound to; every entity no masked entry is bound to keeps
/// what it had.
pub fn apply_field<V: Copy>(
    mask: &NetworkBitmask<V>,
    ids: &Vec<u32>,
    mapping: &NetworkIdMapping,
    storage: &mut Vec<(u64, V)>,
)
    requires
        mask.wf(),
        mask.len() == ids@.len(),
        distinct_ids(ids@),
        forall|p: int| 0 <= p < ids@.len() ==> map_lookup(mapping.entries@, #[trigger] ids@[p])
            is Some,
        forall|id1: u32, id2: u32|
            id1 != id2 && #[trigger] map_lookup(mapping.entries@, id1) is Some
                && #[trigger] map_lookup(mapping.entries@, id2) is Some ==> map_lookup(
                mapping.entries@,
                id1,
            ) != map_lookup(mapping.entries@, id2),
    ensures
        forall|p: int|
            0 <= p < ids@.len() && #[trigger] mask.slots()[p] is Some ==> store_lookup(
                final(storage)@,
                map_lookup(mapping.entries@, ids@[p]).unwrap(),
            ) == Some(mask.slots()[p].unwrap()),
        forall|e: u64|
            !field_target(mask.slots(), ids@, mapping.entries@, e) ==> store_lookup(
                final(storage)@,
                e,
            ) == store_lookup(old(storage)@, e),
{
    let n = mask.mask_len();
    let mut vi: usize = 0;
    for p in 0..n
        invariant
            mask.wf(),
            n == mask.len(),
            n == ids@.len(),
            distinct_ids(ids@),
            forall|q: int| 0 <= q < ids@.len() ==> map_lookup(mapping.entries@, #[trigger] ids@[q])
                is Some,
            forall|id1: u32, id2: u32|
                id1 != id2 && #[trigger] map_lookup(mapping.entries@, id1) is Some
                    && #[trigger] map_lookup(mapping.entries@, id2) is Some ==> map_lookup(
                    mapping.entries@,
                    id1,
                ) != map_lookup(mapping.entries@, id2),
            vi == crate::bitmask::count_set(mask.bits(), p as int),
            forall|q: int|
                0 <= q < p && #[trigger] mask.slots()[q] is Some ==> store_lookup(
                    storage@,
                    map_lookup(mapping.entries@, ids@[q]).unwrap(),
                ) == Some(mask.slots()[q].unwrap()),
            forall|e: u64|
                !(exists|q: int|
                    0 <= q < p && #[trigger] mask.slots()[q] is Some && map_lookup(
                        mapping.entries@,
                        ids@[q],
                    ) == Some(e)) ==> store_lookup(storage@, e) == store_lookup(old(storage)@, e),
    {
        proof {
            crate::bitmask::lemma_count_set_le(mask.bits(), p as int);
        }
        match mask.slot_at(p, vi) {
            Some(v) => {
                vi = vi + 1;
                proof {
                    assert(map_lookup(mapping.entries@, ids@[p as int]) is Some);
                }
                let e = mapping.get(ids[p]).unwrap();
                let ghost before = storage@;
                storage_set(storage, e, v);
                proof {
                    assert forall|q: int|
                        0 <= q < p + 1 && #[trigger] mask.slots()[q] is Some implies store_lookup(
                        storage@,
                        map_lookup(mapping.entries@, ids@[q]).unwrap(),
                    ) == Some(mask.slots()[q].unwrap()) by {
                        if q < p {
                            let eq = map_lookup(mapping.entries@, ids@[q]).unwrap();
                            assert(ids@[q] != ids@[p as int]);
                            assert(eq != e);
                        }
                    }
                    assert forall|x: u64|
                        !(exists|q: int|
                            0 <= q < p + 1 && #[trigger] mask.slots()[q] is Some && map_lookup(
                                mapping.entries@,
                                ids@[q],
                            ) == Some(x)) implies store_lookup(storage@, x) == store_lookup(
                        old(storage)@,
                        x,
                    ) by {
                        assert(mask.slots()[p as int] is Some);
                        assert(x != e);
                    }
                }
            },
            None => {
                proof {
                    assert forall|x: u64|
                        !(exists|q: int|
                            0 <= q < p + 1 && #[trigger] mask.slots()[q] is Some && map_lookup(
                                mapping.entries@,
                                ids@[q],
                            ) == Some(x)) implies store_lookup(storage@, x) == store_lookup(
                        old(storage)@,
                        x,
                    ) by {
                        assert forall|q: int|
                            0 <= q < p && #[trigger] mask.slots()[q] is Some && map_lookup(
                                mapping.entries@,
                                ids@[q],
                            ) == Some(x) implies false by {
                            assert(exists|q2: int|
                                0 <= q2 < p + 1 && #[trigger] mask.slots()[q2] is Some
                                    && map_lookup(mapping.entries@, ids@[q2]) == Some(x));
                        }
                    }
                }
            },
        }
    }
    proof {
        assert forall|e: u64|
            !field_target(mask.slots(), ids@, mapping.entries@, e) implies store_lookup(
            final(storage)@,
            e,
        ) == store_lookup(old(storage)@, e) by {
            assert forall|q: int|
                0 <= q < n && #[trigger] mask.slots()[q] is Some && map_lookup(
                    mapping.entries@,
                    ids@[q],
                ) == Some(e) implies false by {
                assert(field_target(mask.slots(), ids@, mapping.entries@, e));
            }
        }
    }
}

} // verus!

verus! {

/// A found binding really stands in the map.
pub proof fn lemma_map_some_entry(s: Seq<(u32, u64)>, id: u32, i: int)
    requires
        0 <= i,
        map_lookup_from(s, id, i) is Some,
    ensures
        exists|q: int|
            i <= q < s.len() && (#[trigger] s[q]).0 == id && s[q].1 == map_lookup_from(
                s,
                id,
                i,
            ).unwrap(),
    decreases s.len() - i,
{
    if s[i].0 == id {
    } else {
        lemma_map_some_entry(s, id, i + 1);
    }
}

/// Whether some NetId the packet no longer lists is bound to `e` —
/// the entity is then slated for deletion.
pub open spec fn slated_for_removal(m: Seq<(u32, u64)>, ids: Seq<u32>, e: u64) -> bool {
    exists|id: u32| !ids.contains(id) && #[trigger] map_lookup(m, id) == Some(e)
}

impl NetworkPacket {
    /// Apply this snapshot to the local store, in the order the
    /// protocol requires: first create a local entity for every NetId
    /// not yet mapped, then write each field's masked values onto the
    /// mapped entities, and last delete every entity whose NetId the
    /// snapshot no longer lists, dropping its binding. A packet that
    /// lists some NetId twice is rejected whole and nothing changes.
    pub fn apply_state(&self, world: &mut LocalWorld, mapping: &mut NetworkIdMapping) -> (ok:
        bool)
        requires
            self.wf(),
            old(world).wf(),
            mapping_ok(old(mapping).entries@, *old(world)),
            old(world).next_entity + self.entities_id@.len() <= u64::MAX,
        ensures
            final(world).wf(),
            ok == distinct_ids(self.entities_id@),
            !ok ==> *final(world) == *old(world) && *final(mapping) == *old(mapping),
            ok ==> ({
                let ids = self.entities_id@;
                let m0 = old(mapping).entries@;
                let m1 = final(mapping).entries@;
                &&& mapping_ok(m1, *final(world))
                &&& (forall|id: u32| #[trigger] map_lookup(m1, id) is Some <==> ids.contains(id))
                &&& (forall|id: u32|
                    ids.contains(id) && #[trigger] map_lookup(m0, id) is Some ==> map_lookup(
                        m1,
                        id,
                    ) == map_lookup(m0, id))
                &&& (forall|id: u32|
                    ids.contains(id) ==> final(world).entities@.contains(
                        (#[trigger] map_lookup(m1, id)).unwrap(),
                    ))
                &&& (forall|p: int|
                    0 <= p < ids.len() && #[trigger] self.positions.slots()[p] is Some
                        ==> store_lookup(
                        final(world).positions@,
                        map_lookup(m1, ids[p]).unwrap(),
                    ) == Some(self.positions.slots()[p].unwrap()))
                &&& (forall|p: int|
                    0 <= p < ids.len() && #[trigger] self.colors.slots()[p] is Some
                        ==> store_lookup(final(world).colors@, map_lookup(m1, ids[p]).unwrap())
                        == Some(self.colors.slots()[p].unwrap()))
                &&& (forall|p: int|
                    0 <= p < ids.len() && #[trigger] self.rectangles.slots()[p] is Some
                        ==> store_lookup(
                        final(world).rectangles@,
                        map_lookup(m1, ids[p]).unwrap(),
                    ) == Some(self.rectangles.slots()[p].unwrap()))
                &&& (forall|e: u64|
                    !field_target(self.positions.slots(), ids, m1, e) && !slated_for_removal(
                        m0,
                        ids,
                        e,
                    ) ==> #[trigger] store_lookup(final(world).positions@, e) == store_lookup(
                        old(world).positions@,
                        e,
                    ))
                &&& (forall|e: u64|
                    !field_target(self.colors.slots(), ids, m1, e) && !slated_for_removal(
                        m0,
                        ids,
                        e,
                    ) ==> #[trigger] store_lookup(final(world).colors@, e) == store_lookup(
                        old(world).colors@,
                        e,
                    ))
                &&& (forall|e: u64|
                    !field_target(self.rectangles.slots(), ids, m1, e) && !slated_for_removal(
                        m0,
                        ids,
                        e,
                    ) ==> #[trigger] store_lookup(final(world).rectangles@, e) == store_lookup(
                        old(world).rectangles@,
                        e,
                    ))
                &&& (forall|id: u32|
                    !ids.contains(id) && #[trigger] map_lookup(m0, id) is Some ==> {
                        let e = map_lookup(m0, id).unwrap();
                        &&& !final(world).entities@.contains(e)
                        &&& store_lookup(final(world).positions@, e) is None
                        &&& store_lookup(final(world).colors@, e) is None
                        &&& store_lookup(final(world).rectangles@, e) is None
                    })
                &&& (forall|e: u64|
                    #[trigger] old(world).entities@.contains(e) && !slated_for_removal(m0, ids, e)
                        ==> final(world).entities@.contains(e))
            }),
    {
        if !distinct_ids_check(&self.entities_id) {
            return false;
        }
        let ids = &self.entities_id;
        let n = ids.len();
        let ghost m0 = mapping.entries@;
        let ghost w0 = *world;

        // Step one: bind every listed NetId, minting entities for the
        // newcomers.
        for p in 0..n
            invariant
                n == self.entities_id@.len(),
                ids == &self.entities_id,
                world.wf(),
                w0.next_entity <= world.next_entity,
                world.next_entity <= w0.next_entity + p,
                w0.next_entity + n <= u64::MAX,
                world.positions@ == w0.positions@,
                world.colors@ == w0.colors@,
                world.rectangles@ == w0.rectangles@,
                world.net_ids@ == w0.net_ids@,
                forall|x: u64|
                    #[trigger] world.entities@.contains(x) <==> (w0.entities@.contains(x) || (
                    w0.next_entity <= x < world.next_entity)),
                mapping_ok(mapping.entries@, *world),
                forall|id: u32|
                    #[trigger] map_lookup(m0, id) is Some ==> map_lookup(mapping.entries@, id)
                        == map_lookup(m0, id),
                forall|id: u32|
                    #[trigger] map_lookup(mapping.entries@, id) is Some <==> (map_lookup(m0, id)
                        is Some || (exists|q: int| 0 <= q < p && ids@[q] == id)),
        {
            let id = ids[p];
            if mapping.get(id).is_none() {
                let ghost wpre = *world;
                let e = world.create_entity();
                let ghost mprev = mapping.entries@;
                mapping.entries.push((id, e));
                proof {
                    lemma_map_none_absent(mprev, id, 0);
                    assert forall|x: u32|
                        #[trigger] map_lookup(mapping.entries@, x) == (if x == id {
                            Some(e)
                        } else {
                            map_lookup(mprev, x)
                        }) by {
                        lemma_map_lookup_push(mprev, id, e, x, 0);
                        if x != id {
                            if map_lookup_from(mprev, x, 0) is None {
                                lemma_map_lookup_push(mprev, id, e, x, 0);
                            }
                        }
                    }
                    assert forall|x: u64|
                        #[trigger] world.entities@.contains(x) <==> (w0.entities@.contains(x) || (
                        w0.next_entity <= x < world.next_entity)) by {
                        assert(world.entities@ == wpre.entities@.push(e));
                        if world.entities@.contains(x) {
                            let q = choose|q: int|
                                0 <= q < world.entities@.len() && world.entities@[q] == x;
                            if q < world.entities@.len() - 1 {
                                assert(wpre.entities@[q] == x);
                                assert(wpre.entities@.contains(x));
                            }
                        }
                        if w0.entities@.contains(x) || (w0.next_entity <= x
                            < world.next_entity) {
                            if x == e {
                                assert(world.entities@[world.entities@.len() - 1] == x);
                            } else {
                                assert(wpre.entities@.contains(x));
                                let q = choose|q: int|
                                    0 <= q < wpre.entities@.len() && wpre.entities@[q] == x;
                                assert(world.entities@[q] == x);
                            }
                        }
                    }
                    assert(mapping_ok(mapping.entries@, *world)) by {
                        assert forall|a: int, b: int|
                            0 <= a < b < mapping.entries@.len() implies (
                        #[trigger] mapping.entries@[a]).0 != (
                        #[trigger] mapping.entries@[b]).0 by {
                            if b == mapping.entries@.len() - 1 {
                                assert(mapping.entries@[a] == mprev[a]);
                            } else {
                                assert(mapping.entries@[a] == mprev[a]
                                    && mapping.entries@[b] == mprev[b]);
                            }
                        }
                        assert forall|x: u32|
                            #[trigger] map_lookup(mapping.entries@, x) is Some implies map_lookup(
                            mapping.entries@,
                            x,
                        ).unwrap() < world.next_entity && world.entities@.contains(
                            map_lookup(mapping.entries@, x).unwrap(),
                        ) by {
                            if x != id {
                                assert(map_lookup(mprev, x) is Some);
                            }
                        }
                    }
                }
            }
            proof {
                assert forall|id2: u32|
                    #[trigger] map_lookup(mapping.entries@, id2) is Some <==> (map_lookup(
                    m0,
                    id2,
                ) is Some || (exists|q: int| 0 <= q < p + 1 && ids@[q] == id2)) by {
                    if map_lookup(mapping.entries@, id2) is Some {
                    }
                    if exists|q: int| 0 <= q < p + 1 && ids@[q] == id2 {
                        let q = choose|q: int| 0 <= q < p + 1 && ids@[q] == id2;
                    }
                }
            }
        }

        let ghost m1 = mapping.entries@;
        let ghost w1 = *world;
        proof {
            assert forall|q: int| 0 <= q < ids@.len() implies map_lookup(
                mapping.entries@,
                #[trigger] ids@[q],
            ) is Some by {
                assert(exists|q2: int| 0 <= q2 < n && ids@[q2] == ids@[q]);
            }
        }

        // Step two: write each field onto the mapped entities.
        apply_field(&self.positions, ids, mapping, &mut world.positions);
        proof {
            assert forall|x: u64| x >= world.next_entity implies store_lookup(
                world.positions@,
                x,
            ) is None by {
                assert(!field_target(self.positions.slots(), ids@, m1, x));
            }
        }
        apply_field(&self.colors, ids, mapping, &mut world.colors);
        proof {
            assert forall|x: u64| x >= world.next_entity implies store_lookup(world.colors@, x)
                is None by {
                assert(!field_target(self.colors.slots(), ids@, m1, x));
            }
        }
        apply_field(&self.rectangles, ids, mapping, &mut world.rectangles);
        proof {
            assert forall|x: u64| x >= world.next_entity implies store_lookup(
                world.rectangles@,
                x,
            ) is None by {
                assert(!field_target(self.rectangles.slots(), ids@, m1, x));
            }
        }
        let ghost w2 = *world;

        // Step three: drop the bindings the packet no longer lists and
        // collect their entities.
        let mut kept: Vec<(u32, u64)> = Vec::new();
        let mut removed: Vec<u64> = Vec::new();
        let mn = mapping.entries.len();
        proof {
            assert(m1.skip(0) =~= m1);
        }
        for i in 0..mn
            invariant
                mn == mapping.entries@.len(),
                mapping.entries@ == m1,
                ids == &self.entities_id,
                mapping_kept(m1, ids@) == kept@ + mapping_kept(m1.skip(i as int), ids@),
                removed_entities(m1, ids@) == removed@ + removed_entities(
                    m1.skip(i as int),
                    ids@,
                ),
        {
            proof {
                assert(m1.skip(i as int)[0] == m1[i as int]);
                assert(m1.skip(i as int).skip(1) =~= m1.skip(i as int + 1));
            }
            let entry = mapping.entries[i];
            if ids_contains(ids, entry.0) {
                kept.push(entry);
                proof {
                    assert(kept@ + mapping_kept(m1.skip(i as int + 1), ids@) =~= mapping_kept(
                        m1,
                        ids@,
                    ));
                }
            } else {
                removed.push(entry.1);
                proof {
                    assert(removed@ + removed_entities(m1.skip(i as int + 1), ids@)
                        =~= removed_entities(m1, ids@));
                }
            }
        }
        proof {
            assert(m1.skip(mn as int) =~= Seq::<(u32, u64)>::empty());
            assert(kept@ =~= mapping_kept(m1, ids@));
            assert(removed@ =~= removed_entities(m1, ids@));
        }
        mapping.entries = kept;

        // Step four: delete the collected entities, after every
        // component update is in place.
        let rn = removed.len();
        for k in 0..rn
            invariant
                rn == removed@.len(),
                world.wf(),
                world.next_entity == w2.next_entity,
                forall|x: u64|
                    #[trigger] world.entities@.contains(x) <==> (w2.entities@.contains(x) && !(
                    exists|q: int| 0 <= q < k && removed@[q] == x)),
                forall|x: u64|
                    !(exists|q: int| 0 <= q < k && removed@[q] == x) ==> #[trigger] store_lookup(
                        world.positions@,
                        x,
                    ) == store_lookup(w2.positions@, x),
                forall|x: u64|
                    !(exists|q: int| 0 <= q < k && removed@[q] == x) ==> #[trigger] store_lookup(
                        world.colors@,
                        x,
                    ) == store_lookup(w2.colors@, x),
                forall|x: u64|
                    !(exists|q: int| 0 <= q < k && removed@[q] == x) ==> #[trigger] store_lookup(
                        world.rectangles@,
                        x,
                    ) == store_lookup(w2.rectangles@, x),
                forall|x: u64|
                    (exists|q: int| 0 <= q < k && removed@[q] == x) ==> #[trigger] store_lookup(
                        world.positions@,
                        x,
                    ) is None && store_lookup(world.colors@, x) is None && store_lookup(
                        world.rectangles@,
                        x,
                    ) is None,
        {
            let e = removed[k];
            world.delete_entity(e);
            proof {
                assert forall|x: u64|
                    #[trigger] world.entities@.contains(x) <==> (w2.entities@.contains(x) && !(
                    exists|q: int| 0 <= q < k + 1 && removed@[q] == x)) by {
                    if exists|q: int| 0 <= q < k + 1 && removed@[q] == x {
                        let q = choose|q: int| 0 <= q < k + 1 && removed@[q] == x;
                    }
                }
            }
        }

        // What remains is exactly what the contract promises.
        proof {
            let idsv = self.entities_id@;
            assert forall|id: u32| #[trigger] map_lookup(mapping.entries@, id)
                is Some <==> idsv.contains(id) by {
                lemma_mapping_kept_lookup(m1, idsv, id);
            }
            assert forall|id: u32|
                idsv.contains(id) implies map_lookup(mapping.entries@, id) == map_lookup(
                m1,
                id,
            ) by {
                lemma_mapping_kept_lookup(m1, idsv, id);
            }
            // An entity is in the removed list exactly when some NetId
            // the packet no longer lists was bound to it.
            assert forall|e: u64|
                removed@.contains(e) <==> slated_for_removal(m0, idsv, e) by {
                lemma_removed_entities_contains(m1, idsv, e);
                if removed@.contains(e) {
                    let q = choose|q: int|
                        0 <= q < m1.len() && (#[trigger] m1[q]).1 == e && !idsv.contains(m1[q].0);
                    lemma_map_entry_lookup(m1, q);
                    assert(map_lookup(m1, m1[q].0) == Some(e));
                    assert(map_lookup(m0, m1[q].0) is Some);
                    assert(map_lookup(m0, m1[q].0) == Some(e));
                }
                if slated_for_removal(m0, idsv, e) {
                    let id = choose|id: u32|
                        !idsv.contains(id) && #[trigger] map_lookup(m0, id) == Some(e);
                    assert(map_lookup(m1, id) == Some(e));
                    lemma_map_some_entry(m1, id, 0);
                }
            }
            // Kept bindings never point at a removed entity.
            assert forall|id: u32|
                idsv.contains(id) implies !removed@.contains(
                (#[trigger] map_lookup(mapping.entries@, id)).unwrap(),
            ) by {
                let e = map_lookup(m1, id).unwrap();
                lemma_mapping_kept_lookup(m1, idsv, id);
                if removed@.contains(e) {
                    let id2 = choose|id2: u32|
                        !idsv.contains(id2) && #[trigger] map_lookup(m0, id2) == Some(e);
                    assert(map_lookup(m1, id2) == Some(e));
                    assert(id2 != id);
                }
            }
            assert(mapping_ok(mapping.entries@, *final(world))) by {
                lemma_mapping_kept_distinct(m1, idsv);
                assert forall|id: u32| #[trigger] map_lookup(mapping.entries@, id)
                    is Some implies map_lookup(mapping.entries@, id).unwrap()
                    < final(world).next_entity && final(world).entities@.contains(
                    map_lookup(mapping.entries@, id).unwrap(),
                ) by {
                    lemma_mapping_kept_lookup(m1, idsv, id);
                }
                assert forall|id1: u32, id2: u32|
                    id1 != id2 && #[trigger] map_lookup(mapping.entries@, id1) is Some
                        && #[trigger] map_lookup(mapping.entries@, id2) is Some implies map_lookup(
                    mapping.entries@,
                    id1,
                ) != map_lookup(mapping.entries@, id2) by {
                    lemma_mapping_kept_lookup(m1, idsv, id1);
                    lemma_mapping_kept_lookup(m1, idsv, id2);
                }
            }
            // Masked values reached their entities and survived the
            // deletions.
            assert forall|p: int|
                0 <= p < idsv.len() && #[trigger] self.positions.slots()[p]
                    is Some implies store_lookup(
                final(world).positions@,
                map_lookup(final(mapping).entries@, idsv[p]).unwrap(),
            ) == Some(self.positions.slots()[p].unwrap()) by {
                let id = idsv[p];
                assert(idsv.contains(id));
                lemma_mapping_kept_lookup(m1, idsv, id);
                let e = map_lookup(m1, id).unwrap();
                assert(!removed@.contains(e));
            }
            assert forall|p: int|
                0 <= p < idsv.len() && #[trigger] self.colors.slots()[p]
                    is Some implies store_lookup(
                final(world).colors@,
                map_lookup(final(mapping).entries@, idsv[p]).unwrap(),
            ) == Some(self.colors.slots()[p].unwrap()) by {
                let id = idsv[p];
                assert(idsv.contains(id));
                lemma_mapping_kept_lookup(m1, idsv, id);
                let e = map_lookup(m1, id).unwrap();
                assert(!removed@.contains(e));
            }
            assert forall|p: int|
                0 <= p < idsv.len() && #[trigger] self.rectangles.slots()[p]
                    is Some implies store_lookup(
                final(world).rectangles@,
                map_lookup(final(mapping).entries@, idsv[p]).unwrap(),
            ) == Some(self.rectangles.slots()[p].unwrap()) by {
                let id = idsv[p];
                assert(idsv.contains(id));
                lemma_mapping_kept_lookup(m1, idsv, id);
                let e = map_lookup(m1, id).unwrap();
                assert(!removed@.contains(e));
            }
            // Untouched slots kept their old values.
            assert forall|e: u64|
                !field_target(self.positions.slots(), idsv, final(mapping).entries@, e)
                    && !slated_for_removal(m0, idsv, e) implies #[trigger] store_lookup(
                final(world).positions@,
                e,
            ) == store_lookup(old(world).positions@, e) by {
                assert(!removed@.contains(e));
                assert(!field_target(self.positions.slots(), idsv, m1, e)) by {
                    if field_target(self.positions.slots(), idsv, m1, e) {
                        let p = choose|p: int|
                            0 <= p < idsv.len() && #[trigger] self.positions.slots()[p] is Some
                                && map_lookup(m1, idsv[p]) == Some(e);
                        assert(idsv.contains(idsv[p]));
                        lemma_mapping_kept_lookup(m1, idsv, idsv[p]);
                        assert(field_target(
                            self.positions.slots(),
                            idsv,
                            final(mapping).entries@,
                            e,
                        ));
                    }
                }
            }
            assert forall|e: u64|
                !field_target(self.colors.slots(), idsv, final(mapping).entries@, e)
                    && !slated_for_removal(m0, idsv, e) implies #[trigger] store_lookup(
                final(world).colors@,
                e,
            ) == store_lookup(old(world).colors@, e) by {
                assert(!removed@.contains(e));
                assert(!field_target(self.colors.slots(), idsv, m1, e)) by {
                    if field_target(self.colors.slots(), idsv, m1, e) {
                        let p = choose|p: int|
                            0 <= p < idsv.len() && #[trigger] self.colors.slots()[p] is Some
                                && map_lookup(m1, idsv[p]) == Some(e);
                        assert(idsv.contains(idsv[p]));
                        lemma_mapping_kept_lookup(m1, idsv, idsv[p]);
                        assert(field_target(
                            self.colors.slots(),
                            idsv,
                            final(mapping).entries@,
                            e,
                        ));
                    }
                }
            }
            assert forall|e: u64|
                !field_target(self.rectangles.slots(), idsv, final(mapping).entries@, e)
                    && !slated_for_removal(m0, idsv, e) implies #[trigger] store_lookup(
                final(world).rectangles@,
                e,
            ) == store_lookup(old(world).rectangles@, e) by {
                assert(!removed@.contains(e));
                assert(!field_target(self.rectangles.slots(), idsv, m1, e)) by {
                    if field_target(self.rectangles.slots(), idsv, m1, e) {
                        let p = choose|p: int|
                            0 <= p < idsv.len() && #[trigger] self.rectangles.slots()[p] is Some
                                && map_lookup(m1, idsv[p]) == Some(e);
                        assert(idsv.contains(idsv[p]));
                        lemma_mapping_kept_lookup(m1, idsv, idsv[p]);
                        assert(field_target(
                            self.rectangles.slots(),
                            idsv,
                            final(mapping).entries@,
                            e,
                        ));
                    }
                }
            }
            // The bindings the packet dropped lost entity and
            // components alike.
            assert forall|id: u32|
                !idsv.contains(id) && #[trigger] map_lookup(m0, id) is Some implies ({
                let e = map_lookup(m0, id).unwrap();
                &&& !final(world).entities@.contains(e)
                &&& store_lookup(final(world).positions@, e) is None
                &&& store_lookup(final(world).colors@, e) is None
                &&& store_lookup(final(world).rectangles@, e) is None
            }) by {
                let e = map_lookup(m0, id).unwrap();
                assert(slated_for_removal(m0, idsv, e));
                assert(removed@.contains(e));
            }
            // Listed ids' entities are alive.
            assert forall|id: u32|
                idsv.contains(id) implies final(world).entities@.contains(
                (#[trigger] map_lookup(final(mapping).entries@, id)).unwrap(),
            ) by {
                lemma_mapping_kept_lookup(m1, idsv, id);
                let e = map_lookup(m1, id).unwrap();
                assert(w1.entities@.contains(e));
                assert(!removed@.contains(e));
            }
            // Entities the packet does not delete stay alive.
            assert forall|e: u64|
                #[trigger] old(world).entities@.contains(e) && !slated_for_removal(
                    m0,
                    idsv,
                    e,
                ) implies final(world).entities@.contains(e) by {
                assert(w1.entities@.contains(e));
                assert(!removed@.contains(e));
            }
        }
        true
    }
}

} // verus!
