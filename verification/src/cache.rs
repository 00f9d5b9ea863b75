//! The entity cache: a memory tier, and a disk tier for runs whose unique
//! id count exceeds the configured threshold. Identifiers are deduplicated
//! before any fetch is planned, so no identifier is fetched twice in one
//! run; spilled chunks are encoded, written to the run-scoped store, and
//! dropped from memory, and every spilled entity is still retrievable.

use crate::codec::{entity_from_tokens, entity_to_tokens, sp_entity, toks_of_entity};
use crate::entity::{Entity, EntityView, SnakDataType, EntityKind, spec_pair_lookup};
use crate::store::{store_map, DiskStore};
use crate::text::str_eq;
use vstd::prelude::*;

verus! {

pub struct EntityContainerWrapper {
    /// The memory tier: entities fetched this run and not spilled.
    pub entities: Vec<Entity>,
    /// The disk tier, created the first time a chunk is spilled.
    pub disk: Option<DiskStore>,
}

/// The views of the memory tier.
pub open spec fn spec_entities_views(s: Seq<Entity>) -> Seq<EntityView> {
    Seq::new(s.len(), |i: int| s[i].deep_view())
}

/// The first memory entity under an id, if any.
pub open spec fn spec_mem_lookup(s: Seq<EntityView>, id: Seq<char>) -> Option<EntityView>
    decreases s.len(),
{
    if s.len() == 0 {
        None
    } else if s[0].id == id {
        Some(s[0])
    } else {
        spec_mem_lookup(s.skip(1), id)
    }
}

/// What the disk tier holds under an id: the stored token list decoded.
pub open spec fn spec_disk_lookup(c: &EntityContainerWrapper, id: Seq<char>) -> Option<
    EntityView,
> {
    match c.disk {
        Some(d) => if store_map(d).contains_key(id) {
            sp_entity(store_map(d)[id])
        } else {
            None
        },
        None => None,
    }
}

/// What the cache holds under an id: memory first, then disk.
pub open spec fn spec_cached(c: &EntityContainerWrapper, id: Seq<char>) -> Option<EntityView> {
    match spec_mem_lookup(spec_entities_views(c.entities@), id) {
        Some(e) => Some(e),
        None => spec_disk_lookup(c, id),
    }
}

impl EntityContainerWrapper {
    /// An empty cache: nothing in memory, no disk tier.
    pub fn new() -> (r: EntityContainerWrapper)
        ensures
            r.entities@.len() == 0,
            r.disk is None,
            forall|id: Seq<char>| spec_cached(&r, id) is None,
    {
        let r = EntityContainerWrapper { entities: Vec::new(), disk: None };
        proof {
            assert(forall|id: Seq<char>| spec_cached(&r, id) is None) by {
                assert(spec_entities_views(r.entities@).len() == 0);
            }
        }
        r
    }

    /// Whether any cached entity has this id.
    pub fn has_entity(&self, entity_id: &str) -> (r: bool)
        ensures
            r == (spec_cached(self, entity_id@) is Some),
    {
        match self.get_entity(entity_id) {
            Some(_) => true,
            None => false,
        }
    }

    /// The cached entity under an id: the memory tier first, then the disk
    /// tier, whose stored token list is decoded; a missing id is `None`,
    /// never an error.
    pub fn get_entity(&self, entity_id: &str) -> (r: Option<Entity>)
        ensures
            match r {
                Some(e) => spec_cached(self, entity_id@) == Some(e.deep_view()),
                None => spec_cached(self, entity_id@) is None,
            },
    {
        let ghost mems = spec_entities_views(self.entities@);
        let n = self.entities.len();
        let mut i: usize = 0;
        proof {
            assert(mems.skip(0) =~= mems);
        }
        while i < n
            invariant
                n == self.entities@.len(),
                0 <= i <= n,
                mems == spec_entities_views(self.entities@),
                spec_mem_lookup(mems.skip(i as int), entity_id@) == spec_mem_lookup(
                    mems,
                    entity_id@,
                ),
            decreases n - i,
        {
            proof {
                assert(mems.skip(i as int)[0] == mems[i as int]);
                assert(mems[i as int] == self.entities@[i as int].deep_view());
            }
            let e = &self.entities[i];
            if str_eq(e.id.as_str(), entity_id) {
                return Some(e.duplicate());
            }
            proof {
                assert(mems.skip(i as int).skip(1) =~= mems.skip(i as int + 1));
            }
            i += 1;
        }
        proof {
            assert(mems.skip(i as int) =~= Seq::<EntityView>::empty());
        }
        match &self.disk {
            None => None,
            Some(d) => {
                match d.get(entity_id) {
                    None => None,
                    Some(toks) => entity_from_tokens(&toks),
                }
            },
        }
    }

    /// The cached entity's label in a locale.
    pub fn get_local_entity_label(&self, entity_id: &str, language: &str) -> (r: Option<String>)
        ensures
            match spec_cached(self, entity_id@) {
                Some(e) => match r {
                    Some(l) => spec_pair_lookup(e.labels, language@) == Some(l@),
                    None => spec_pair_lookup(e.labels, language@) is None,
                },
                None => r is None,
            },
    {
        match self.get_entity(entity_id) {
            None => None,
            Some(e) => {
                match e.label_in_locale(language) {
                    Some(l) => Some(l.clone()),
                    None => None,
                }
            },
        }
    }

    /// The identifiers a load must fetch: the given ids with empty ones,
    /// already cached ones and duplicates removed. Exactly one entry
    /// remains for every distinct fetchable id, so nothing is fetched
    /// twice.
    pub fn unique_ids(&self, ids: &Vec<String>) -> (r: Vec<String>)
        ensures
            forall|i: int, j: int|
                0 <= i < j < r@.len() ==> #[trigger] r@[i]@ != #[trigger] r@[j]@,
            forall|i: int|
                0 <= i < r@.len() ==> #[trigger] r@[i]@.len() > 0 && spec_cached(self, r@[i]@)
                    is None && (exists|k: int| 0 <= k < ids@.len() && #[trigger] ids@[k]@
                    == r@[i]@),
            forall|k: int|
                0 <= k < ids@.len() && #[trigger] ids@[k]@.len() > 0 && spec_cached(
                    self,
                    ids@[k]@,
                ) is None ==> exists|i: int| 0 <= i < r@.len() && #[trigger] r@[i]@ == ids@[k]@,
    {
        let n = ids.len();
        let mut out: Vec<String> = Vec::new();
        let mut k: usize = 0;
        while k < n
            invariant
                n == ids@.len(),
                0 <= k <= n,
                forall|i: int, j: int|
                    0 <= i < j < out@.len() ==> #[trigger] out@[i]@ != #[trigger] out@[j]@,
                forall|i: int|
                    0 <= i < out@.len() ==> #[trigger] out@[i]@.len() > 0 && spec_cached(
                        self,
                        out@[i]@,
                    ) is None && (exists|m: int| 0 <= m < ids@.len() && #[trigger] ids@[m]@
                        == out@[i]@),
                forall|m: int|
                    0 <= m < k && #[trigger] ids@[m]@.len() > 0 && spec_cached(self, ids@[m]@)
                        is None ==> exists|i: int| 0 <= i < out@.len() && #[trigger] out@[i]@
                        == ids@[m]@,
            decreases n - k,
        {
            let ghost outb = out@;
            let id = &ids[k];
            let fresh = id.as_str().unicode_len() > 0 && !self.has_entity(id.as_str())
                && !contains_str(&out, id.as_str());
            if fresh {
                out.push(id.clone());
                proof {
                    assert(out@[out@.len() - 1]@ == ids@[k as int]@);
                    assert forall|i: int, j: int| 0 <= i < j < out@.len() implies #[trigger] out@[
                        i
                    ]@ != #[trigger] out@[j]@ by {
                        if j < out@.len() - 1 {
                            assert(out@[i] == outb[i] && out@[j] == outb[j]);
                        } else {
                            assert(out@[i] == outb[i]);
                        }
                    }
                    assert forall|i: int| 0 <= i < out@.len() implies #[trigger] out@[i]@.len()
                        > 0 && spec_cached(self, out@[i]@) is None && (exists|m: int|
                        0 <= m < ids@.len() && #[trigger] ids@[m]@ == out@[i]@) by {
                        if i < out@.len() - 1 {
                            assert(out@[i] == outb[i]);
                        } else {
                            assert(ids@[k as int]@ == out@[i]@);
                        }
                    }
                }
            }
            proof {
                assert forall|m: int|
                    0 <= m < k + 1 && #[trigger] ids@[m]@.len() > 0 && spec_cached(
                        self,
                        ids@[m]@,
                    ) is None implies exists|i: int|
                    0 <= i < out@.len() && #[trigger] out@[i]@ == ids@[m]@ by {
                    if m < k {
                        let i0 = choose|i: int|
                            0 <= i < outb.len() && #[trigger] outb[i]@ == ids@[m]@;
                        assert(out@[i0]@ == ids@[m]@);
                    } else {
                        if fresh {
                            assert(out@[out@.len() - 1]@ == ids@[m]@);
                        } else {
                            let i0 = choose|i: int|
                                0 <= i < outb.len() && #[trigger] outb[i]@ == ids@[m]@;
                            assert(out@[i0]@ == ids@[m]@);
                        }
                    }
                }
            }
            k += 1;
        }
        out
    }

    /// Partition a deduplicated id list into fetch batches of at most
    /// `max_entities` each: the batches together hold exactly the given
    /// ids, in order, and a list within the threshold yields at most one
    /// batch.
    pub fn fetch_batches(&self, ids: Vec<String>, max_entities: usize) -> (r: Vec<Vec<String>>)
        requires
            max_entities >= 1,
        ensures
            spec_concat_ids(r.deep_view()) == ids.deep_view(),
            forall|b: int| 0 <= b < r@.len() ==> #[trigger] r.deep_view()[b].len()
                <= max_entities,
            ids@.len() <= max_entities ==> r@.len() <= 1,
    {
        let ghost idsv = ids.deep_view();
        let mut rest = ids;
        let mut out: Vec<Vec<String>> = Vec::new();
        proof {
            lemma_ids_views(&rest);
            assert(spec_concat_ids(Seq::<Seq<Seq<char>>>::empty()) + rest.deep_view() =~= idsv);
        }
        while rest.len() > 0
            invariant
                max_entities >= 1,
                spec_concat_ids(out.deep_view()) + rest.deep_view() =~= idsv,
                forall|b: int| 0 <= b < out@.len() ==> #[trigger] out.deep_view()[b].len()
                    <= max_entities,
                idsv.len() <= max_entities && rest@.len() > 0 ==> out@.len() == 0,
                idsv.len() <= max_entities ==> out@.len() <= 1,
                rest@.len() <= idsv.len(),
            decreases rest@.len(),
        {
            let ghost outb = out.deep_view();
            let ghost restb = rest.deep_view();
            let mut chunk: Vec<String> = Vec::new();
            proof {
                lemma_ids_views(&chunk);
            }
            while chunk.len() < max_entities && rest.len() > 0
                invariant
                    max_entities >= 1,
                    chunk@.len() <= max_entities,
                    chunk.deep_view() + rest.deep_view() =~= restb,
                decreases rest@.len(),
            {
                let ghost chb = chunk@;
                let ghost rb = rest@;
                let x = rest.remove(0);
                proof {
                    assert(rest@ =~= rb.skip(1));
                    assert(x == rb[0]);
                }
                chunk.push(x);
                proof {
                    assert(chunk@ =~= chb.push(rb[0]));
                    assert(chunk.deep_view() + rest.deep_view() =~= restb) by {
                        assert forall|t: int|
                            0 <= t < restb.len() implies (chunk.deep_view()
                            + rest.deep_view())[t] == restb[t] by {
                            assert(chunk.deep_view()[chb.len() as int] == rb[0]@);
                        }
                    }
                }
            }
            let ghost chv = chunk.deep_view();
            out.push(chunk);
            proof {
                assert(out.deep_view() =~= outb.push(chv)) by {
                    assert forall|t: int| 0 <= t < out@.len() implies out.deep_view()[t]
                        == outb.push(chv)[t] by {
                        assert(out.deep_view()[t] == out@[t].deep_view());
                        if t < outb.len() {
                            assert(outb[t] == out@[t].deep_view());
                        }
                    }
                }
                lemma_concat_ids_snoc(outb, chv);
                assert(spec_concat_ids(out.deep_view()) + rest.deep_view() =~= idsv);
                if idsv.len() <= max_entities {
                    assert(chv.len() == restb.len());
                    assert(rest@.len() == 0);
                }
            }
        }
        proof {
            assert(rest.deep_view() =~= Seq::<Seq<char>>::empty());
            assert(spec_concat_ids(out.deep_view()) =~= spec_concat_ids(out.deep_view())
                + rest.deep_view());
        }
        out
    }

    /// Keep a fetched batch entirely in memory.
    pub fn store_batch_in_memory(&mut self, batch: Vec<Entity>)
        ensures
            final(self).entities@ == old(self).entities@ + batch@,
            final(self).disk == old(self).disk,
    {
        let mut batch = batch;
        let ghost orig = self.entities@;
        let ghost bv = batch@;
        let mut taken: usize = 0;
        while batch.len() > 0
            invariant
                self.entities@ =~= orig + bv.take(bv.len() - batch@.len()),
                batch@ =~= bv.skip(bv.len() - batch@.len()),
                batch@.len() <= bv.len(),
                self.disk == old(self).disk,
            decreases batch@.len(),
        {
            let ghost bb = batch@;
            let x = batch.remove(0);
            proof {
                assert(x == bb[0]);
                assert(batch@ =~= bb.skip(1));
                assert(bb[0] == bv[bv.len() - bb.len()]);
            }
            self.entities.push(x);
            proof {
                assert(self.entities@ =~= orig + bv.take(bv.len() - batch@.len()));
                assert(batch@ =~= bv.skip(bv.len() - batch@.len()));
            }
        }
        proof {
            assert(bv.take(bv.len() as int) =~= bv);
            assert(self.entities@ =~= orig + bv);
        }
    }

    /// Spill a fetched chunk: encode each entity into the run's disk store
    /// (creating the store on first use), then release the memory tier, so
    /// peak memory stays bounded by one chunk. On failure the load is
    /// abandoned.
    #[verifier::rlimit(50)]
    pub fn store_batch_on_disk(&mut self, batch: &Vec<Entity>) -> (r: Result<(), String>)
        ensures
            r is Ok ==> final(self).entities@.len() == 0,
            r is Ok ==> (forall|k: int|
                0 <= k < batch@.len() && (forall|j: int|
                    k < j < batch@.len() ==> #[trigger] batch@[j].deep_view().id
                        != batch@[k].deep_view().id) ==> spec_cached(
                    final(self),
                    #[trigger] batch@[k].deep_view().id,
                ) == Some(batch@[k].deep_view())),
            r is Ok ==> (forall|id: Seq<char>|
                (forall|k: int| 0 <= k < batch@.len() ==> #[trigger] batch@[k].deep_view().id
                    != id) ==> #[trigger] spec_disk_lookup(final(self), id) == spec_disk_lookup(
                    old(self),
                    id,
                )),
    {
        if self.disk.is_none() {
            match DiskStore::new() {
                Some(d) => {
                    self.disk = Some(d);
                },
                None => {
                    return Err(String::from_str("Error loading entities: no disk store"));
                },
            }
        }
        let n = batch.len();
        let mut i: usize = 0;
        let ghost start_disk = spec_store_of(self);
        while i < n
            invariant
                n == batch@.len(),
                0 <= i <= n,
                self.disk is Some,
                self.entities == old(self).entities,
                spec_store_of(self) == spec_after_batch(start_disk, batch@.take(i as int)),
                forall|k: int|
                    0 <= k < i ==> sp_entity(
                        toks_of_entity(#[trigger] batch@[k].deep_view()),
                    ) == Some(batch@[k].deep_view()),
                start_disk == spec_store_of(old(self)) || (old(self).disk is None && start_disk
                    == Map::<Seq<char>, Seq<Seq<char>>>::empty()),
                old(self).disk is Some ==> start_disk == spec_store_of(old(self)),
            decreases n - i,
        {
            let e = &batch[i];
            let toks = entity_to_tokens(e);
            let ok = match &mut self.disk {
                Some(d) => d.set(e.id.as_str(), &toks),
                None => false,
            };
            if !ok {
                return Err(String::from_str("Error loading entities: disk write failed"));
            }
            proof {
                assert(e.deep_view().id == e.id@);
                assert(batch@.take(i as int + 1).drop_last() =~= batch@.take(i as int));
                assert(batch@.take(i as int + 1).last() == batch@[i as int]);
            }
            i += 1;
        }
        self.entities.clear();
        proof {
            assert(batch@.take(n as int) =~= batch@);
            lemma_after_batch_lookup(start_disk, batch@);
            assert(spec_entities_views(self.entities@).len() == 0);
            assert forall|k: int|
                0 <= k < batch@.len() && (forall|j: int|
                    k < j < batch@.len() ==> #[trigger] batch@[j].deep_view().id
                        != batch@[k].deep_view().id) implies spec_cached(
                self,
                #[trigger] batch@[k].deep_view().id,
            ) == Some(batch@[k].deep_view()) by {
                let id = batch@[k].deep_view().id;
                assert(spec_mem_lookup(spec_entities_views(self.entities@), id) is None);
                assert(spec_store_of(self).contains_key(id));
                assert(spec_store_of(self)[id] == toks_of_entity(batch@[k].deep_view()));
                assert(sp_entity(toks_of_entity(batch@[k].deep_view())) == Some(
                    batch@[k].deep_view(),
                ));
            }
            assert forall|id: Seq<char>|
                (forall|k: int| 0 <= k < batch@.len() ==> #[trigger] batch@[k].deep_view().id
                    != id) implies #[trigger] spec_disk_lookup(self, id) == spec_disk_lookup(
                old(self),
                id,
            ) by {
                if old(self).disk is None {
                    assert(!start_disk.contains_key(id));
                }
            }
        }
        Ok(())
    }

    /// The declared datatype of a property entity, `String` when unknown.
    pub fn get_datatype_for_property(&self, prop: &str) -> (r: SnakDataType)
        ensures
            r == match spec_cached(self, prop@) {
                Some(e) => {
                    if e.kind == EntityKind::Property {
                        match e.datatype {
                            Some(dt) => dt,
                            None => SnakDataType::StringType,
                        }
                    } else {
                        SnakDataType::StringType
                    }
                },
                None => SnakDataType::StringType,
            },
    {
        match self.get_entity(prop) {
            Some(e) => {
                match e.kind {
                    EntityKind::Property => {
                        match e.datatype {
                            Some(dt) => dt,
                            None => SnakDataType::StringType,
                        }
                    },
                    _ => SnakDataType::StringType,
                }
            },
            None => SnakDataType::StringType,
        }
    }
}

/// The current disk map, empty when no store exists.
pub open spec fn spec_store_of(c: &EntityContainerWrapper) -> Map<Seq<char>, Seq<Seq<char>>> {
    match c.disk {
        Some(d) => store_map(d),
        None => Map::empty(),
    }
}

/// The disk map after writing a batch, first to last.
pub open spec fn spec_after_batch(
    m: Map<Seq<char>, Seq<Seq<char>>>,
    batch: Seq<Entity>,
) -> Map<Seq<char>, Seq<Seq<char>>>
    decreases batch.len(),
{
    if batch.len() == 0 {
        m
    } else {
        spec_after_batch(m, batch.drop_last()).insert(
            batch.last().deep_view().id,
            toks_of_entity(batch.last().deep_view()),
        )
    }
}

/// What the written map holds: the last write under each id wins, and ids
/// not written keep their old entry.
pub proof fn lemma_after_batch_lookup(m: Map<Seq<char>, Seq<Seq<char>>>, batch: Seq<Entity>)
    ensures
        forall|k: int|
            0 <= k < batch.len() && (forall|j: int|
                k < j < batch.len() ==> #[trigger] batch[j].deep_view().id
                    != batch[k].deep_view().id) ==> {
                &&& spec_after_batch(m, batch).contains_key(#[trigger] batch[k].deep_view().id)
                &&& spec_after_batch(m, batch)[batch[k].deep_view().id] == toks_of_entity(
                    batch[k].deep_view(),
                )
            },
        forall|id: Seq<char>|
            (forall|k: int| 0 <= k < batch.len() ==> #[trigger] batch[k].deep_view().id != id)
                ==> (#[trigger] spec_after_batch(m, batch).contains_key(id) == m.contains_key(id)
                && (m.contains_key(id) ==> spec_after_batch(m, batch)[id] == m[id])),
    decreases batch.len(),
{
    if batch.len() > 0 {
        lemma_after_batch_lookup(m, batch.drop_last());
        assert forall|id: Seq<char>|
            (forall|k: int| 0 <= k < batch.len() ==> #[trigger] batch[k].deep_view().id != id)
                implies (#[trigger] spec_after_batch(m, batch).contains_key(id)
                == m.contains_key(id) && (m.contains_key(id) ==> spec_after_batch(m, batch)[id]
                == m[id])) by {
            assert forall|k: int|
                0 <= k < batch.drop_last().len() implies #[trigger] batch.drop_last()[
                k
            ].deep_view().id != id by {
                assert(batch.drop_last()[k] == batch[k]);
            }
            assert(batch[batch.len() - 1].deep_view().id != id);
            assert(spec_after_batch(m, batch.drop_last()).contains_key(id) == m.contains_key(
                id,
            ));
            assert(spec_after_batch(m, batch) == spec_after_batch(m, batch.drop_last()).insert(
                batch.last().deep_view().id,
                toks_of_entity(batch.last().deep_view()),
            ));
            assert(batch.last() == batch[batch.len() - 1]);
        }
        assert forall|k: int|
            0 <= k < batch.len() && (forall|j: int|
                k < j < batch.len() ==> #[trigger] batch[j].deep_view().id
                    != batch[k].deep_view().id) implies {
            &&& spec_after_batch(m, batch).contains_key(#[trigger] batch[k].deep_view().id)
            &&& spec_after_batch(m, batch)[batch[k].deep_view().id] == toks_of_entity(
                batch[k].deep_view(),
            )
        } by {
            if k == batch.len() - 1 {
            } else {
                assert(forall|j: int|
                    k < j < batch.drop_last().len() ==> #[trigger] batch.drop_last()[
                        j
                    ].deep_view().id != batch.drop_last()[k].deep_view().id);
                assert(batch[batch.len() - 1].deep_view().id != batch[k].deep_view().id);
            }
        }
    }
}

/// The batches flattened, first to last.
pub open spec fn spec_concat_ids(bs: Seq<Seq<Seq<char>>>) -> Seq<Seq<char>>
    decreases bs.len(),
{
    if bs.len() == 0 {
        Seq::empty()
    } else {
        bs[0] + spec_concat_ids(bs.skip(1))
    }
}

proof fn lemma_concat_ids_snoc(bs: Seq<Seq<Seq<char>>>, x: Seq<Seq<char>>)
    ensures
        spec_concat_ids(bs.push(x)) =~= spec_concat_ids(bs) + x,
    decreases bs.len(),
{
    if bs.len() == 0 {
        assert(bs.push(x)[0] == x);
        assert(bs.push(x).skip(1) =~= Seq::<Seq<Seq<char>>>::empty());
        assert(spec_concat_ids(Seq::<Seq<Seq<char>>>::empty()) =~= Seq::<Seq<char>>::empty());
        assert(spec_concat_ids(bs.push(x)) =~= x);
        assert(spec_concat_ids(bs) =~= Seq::<Seq<char>>::empty());
    } else {
        assert(bs.push(x)[0] == bs[0]);
        assert(bs.push(x).skip(1) =~= bs.skip(1).push(x));
        lemma_concat_ids_snoc(bs.skip(1), x);
        assert(spec_concat_ids(bs.push(x)) =~= bs[0] + spec_concat_ids(bs.skip(1).push(x)));
        assert(spec_concat_ids(bs) =~= bs[0] + spec_concat_ids(bs.skip(1)));
        assert(spec_concat_ids(bs.push(x)) =~= spec_concat_ids(bs) + x);
    }
}

/// A string `Vec`'s deep view reads the element views.
proof fn lemma_ids_views(v: &Vec<String>)
    ensures
        v.deep_view().len() == v@.len(),
        forall|i: int| 0 <= i < v@.len() ==> #[trigger] v.deep_view()[i] == v@[i]@,
{
}

/// Whether a string list holds `x`.
fn contains_str(v: &Vec<String>, x: &str) -> (r: bool)
    ensures
        r == (exists|i: int| 0 <= i < v@.len() && #[trigger] v@[i]@ == x@),
{
    let n = v.len();
    let mut i: usize = 0;
    while i < n
        invariant
            n == v@.len(),
            0 <= i <= n,
            forall|j: int| 0 <= j < i ==> #[trigger] v@[j]@ != x@,
        decreases n - i,
    {
        if str_eq(v[i].as_str(), x) {
            return true;
        }
        i += 1;
    }
    false
}

} // verus!
