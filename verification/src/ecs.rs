use vstd::prelude::*;

verus! {

/// Number of component slots every entity has.
pub const C_COUNT: usize = 16;

/// An entity: one optional component per slot, and whether it is alive.
pub struct Entity<P> {
    components: Vec<Option<P>>,
    alive: bool,
}

impl<P> Entity<P> {
    /// The entity's component slots.
    pub closed spec fn slots(&self) -> Seq<Option<P>> {
        self.components@
    }

    /// Whether the entity is alive.
    pub closed spec fn is_alive(&self) -> bool {
        self.alive
    }

    /// A live entity with every slot empty.
    pub fn new() -> (e: Entity<P>)
        ensures
            e.slots() == Seq::new(C_COUNT as nat, |_i: int| None::<P>),
            e.is_alive(),
    {
        let mut components: Vec<Option<P>> = Vec::new();
        let mut i: usize = 0;
        while i < C_COUNT
            invariant
                i <= C_COUNT,
                components@ == Seq::new(i as nat, |_i: int| None::<P>),
            decreases C_COUNT - i,
        {
            components.push(None);
            i += 1;
            assert(components@ =~= Seq::new(i as nat, |_i: int| None::<P>));
        }
        Entity { components, alive: true }
    }
}

/// A system: the function the game runs on every live entity that has all the
/// components in `filter`.
pub struct System<F> {
    pub func: F,
    pub filter: Vec<usize>,
}

impl<F> System<F> {
    pub fn new(filter: Vec<usize>, func: F) -> (s: System<F>)
        ensures
            s.filter == filter,
            s.func == func,
    {
        System { func, filter }
    }
}

/// A renderer: the function the game draws every live entity with with, among those that
/// have all the components in `filter`.
pub struct Renderer<F> {
    pub draw: F,
    pub filter: Vec<usize>,
}

impl<F> Renderer<F> {
    pub fn new(filter: Vec<usize>, draw: F) -> (r: Renderer<F>)
        ensures
            r.filter == filter,
            r.draw == draw,
    {
        Renderer { draw, filter }
    }
}

/// A store of entities in numbered slots. Removed entities leave holes that later entities
/// reuse, most recently freed first. `P` is the component type, `S` and `R` the function
/// types of systems and renderers.
pub struct Ecs<P, S, R> {
    entities: Vec<Entity<P>>,
    systems: Vec<System<S>>,
    renderers: Vec<Renderer<R>>,
    holes: Vec<usize>,
}

impl<P, S, R> Ecs<P, S, R> {
    /// The component slots of every entity, by entity index.
    pub closed spec fn slots(&self) -> Seq<Seq<Option<P>>> {
        self.entities@.map_values(|e: Entity<P>| e.components@)
    }

    /// Whether each entity is alive, by entity index.
    pub closed spec fn alive(&self) -> Seq<bool> {
        self.entities@.map_values(|e: Entity<P>| e.alive)
    }

    /// The freed entity indices, the most recently freed last.
    pub closed spec fn holes(&self) -> Seq<usize> {
        self.holes@
    }

    /// The registered systems, in order.
    pub closed spec fn systems(&self) -> Seq<System<S>> {
        self.systems@
    }

    /// The registered renderers, in order.
    pub closed spec fn renderers(&self) -> Seq<Renderer<R>> {
        self.renderers@
    }

    /// Every entity has `C_COUNT` slots, there is one liveness flag per entity, and every
    /// hole is an entity index.
    pub open spec fn wf(&self) -> bool {
        &&& self.alive().len() == self.slots().len()
        &&& forall|e: int| 0 <= e < self.slots().len() ==> #[trigger] self.slots()[e].len() == C_COUNT
        &&& forall|h: int| 0 <= h < self.holes().len() ==> #[trigger] self.holes()[h] < self.slots().len()
    }

    /// `wf` over the fields themselves.
    spec fn fields_wf(&self) -> bool {
        &&& forall|e: int| 0 <= e < self.entities@.len() ==> #[trigger] self.entities@[e].components@.len() == C_COUNT
        &&& forall|h: int| 0 <= h < self.holes@.len() ==> #[trigger] self.holes@[h] < self.entities@.len()
    }

    /// How the views read the fields.
    proof fn lemma_views(&self)
        ensures
            self.slots().len() == self.entities@.len(),
            self.alive().len() == self.entities@.len(),
            self.holes() == self.holes@,
            forall|e: int| 0 <= e < self.entities@.len() ==> #[trigger] self.slots()[e] == self.entities@[e].components@,
            forall|e: int| 0 <= e < self.entities@.len() ==> #[trigger] self.alive()[e] == self.entities@[e].alive,
            self.wf() <==> self.fields_wf(),
    {
        if self.wf() {
            assert forall|e: int| 0 <= e < self.entities@.len() implies #[trigger] self.entities@[e].components@.len() == C_COUNT by {
                assert(self.slots()[e].len() == C_COUNT);
            }
        }
        if self.fields_wf() {
            assert forall|e: int| 0 <= e < self.slots().len() implies #[trigger] self.slots()[e].len() == C_COUNT by {
                assert(self.entities@[e].components@.len() == C_COUNT);
            }
        }
    }

    /// An empty store.
    pub fn new() -> (ecs: Ecs<P, S, R>)
        ensures
            ecs.wf(),
            ecs.slots() == Seq::<Seq<Option<P>>>::empty(),
            ecs.alive() == Seq::<bool>::empty(),
            ecs.holes() == Seq::<usize>::empty(),
            ecs.systems() == Seq::<System<S>>::empty(),
            ecs.renderers() == Seq::<Renderer<R>>::empty(),
    {
        let ecs = Ecs { entities: Vec::new(), systems: Vec::new(), renderers: Vec::new(), holes: Vec::new() };
        assert(ecs.slots() =~= Seq::<Seq<Option<P>>>::empty());
        assert(ecs.alive() =~= Seq::<bool>::empty());
        ecs
    }

    /// Number of entity slots, live or not.
    pub fn entity_count(&self) -> (n: usize)
        ensures
            n == self.slots().len(),
            n == self.alive().len(),
    {
        self.entities.len()
    }

    /// Whether entity `entity` is alive.
    pub fn is_alive(&self, entity: usize) -> (alive: bool)
        requires
            entity < self.alive().len(),
        ensures
            alive == self.alive()[entity as int],
    {
        self.entities[entity].alive
    }

    /// The component in slot `index` of entity `entity`, if any.
    pub fn get_component(&self, entity: usize, index: usize) -> (c: Option<&P>)
        requires
            self.wf(),
            entity < self.slots().len(),
            index < C_COUNT,
        ensures
            match c {
                Some(p) => self.slots()[entity as int][index as int] == Some(*p),
                None => self.slots()[entity as int][index as int] is None,
            },
    {
        proof { self.lemma_views(); }
        assert(self.entities@[entity as int].components.len() == C_COUNT);
        self.entities[entity].components[index].as_ref()
    }

    /// A mutable borrow of the component in slot `index` of entity `entity`, if any; what
    /// the caller writes through it is what the slot holds afterwards.
    pub fn get_component_mut(&mut self, entity: usize, index: usize) -> (c: Option<&mut P>)
        requires
            old(self).wf(),
            entity < old(self).slots().len(),
            index < C_COUNT,
        ensures
            final(self).wf(),
            final(self).alive() == old(self).alive(),
            final(self).holes() == old(self).holes(),
            final(self).systems() == old(self).systems(),
            final(self).renderers() == old(self).renderers(),
            c matches Some(p) ==> old(self).slots()[entity as int][index as int] == Some(*p),
            c matches Some(p) ==> final(self).slots()[entity as int][index as int] == Some(*final(p)),
            c is None ==> old(self).slots()[entity as int][index as int] is None,
            c is None ==> final(self).slots()[entity as int][index as int] is None,
            final(self).slots().len() == old(self).slots().len(),
            final(self).slots()[entity as int].len() == C_COUNT,
            forall|e: int|
                0 <= e < old(self).slots().len() && e != entity ==> #[trigger] final(self).slots()[e]
                    == old(self).slots()[e],
            forall|i: int|
                0 <= i < C_COUNT && i != index ==> #[trigger] final(self).slots()[entity as int][i]
                    == old(self).slots()[entity as int][i],
    {
        proof { self.lemma_views(); }
        assert(self.entities@[entity as int].components.len() == C_COUNT);
        self.entities[entity].components[index].as_mut()
    }

    /// Empties slot `index` of entity `entity`.
    pub fn remove_component(&mut self, entity: usize, index: usize)
        requires
            old(self).wf(),
            entity < old(self).slots().len(),
            index < C_COUNT,
        ensures
            final(self).wf(),
            final(self).slots() == with_slot(old(self).slots(), entity as int, index as int, None),
            final(self).alive() == old(self).alive(),
            final(self).holes() == old(self).holes(),
            final(self).systems() == old(self).systems(),
            final(self).renderers() == old(self).renderers(),
    {
        proof { self.lemma_views(); }
        assert(self.entities@[entity as int].components.len() == C_COUNT);
        self.entities[entity].components.set(index, None);
        proof {
            self.lemma_views();
            assert forall|e: int| 0 <= e < self.entities.len() implies #[trigger] self.entities@[e].components.len()
                == C_COUNT by {
                if e != entity {
                    assert(self.entities@[e] == old(self).entities@[e]);
                }
            }
            assert(self.slots() =~= old(self).slots().update(
                entity as int,
                old(self).slots()[entity as int].update(index as int, None),
            ));
            assert(self.alive() =~= old(self).alive());
        }
    }

    /// Puts `component` in slot `index` of entity `entity`, replacing what was there.
    pub fn set_component(&mut self, entity: usize, index: usize, component: P)
        requires
            old(self).wf(),
            entity < old(self).slots().len(),
            index < C_COUNT,
        ensures
            final(self).wf(),
            final(self).slots() == with_slot(
                old(self).slots(),
                entity as int,
                index as int,
                Some(component),
            ),
            final(self).alive() == old(self).alive(),
            final(self).holes() == old(self).holes(),
            final(self).systems() == old(self).systems(),
            final(self).renderers() == old(self).renderers(),
    {
        proof { self.lemma_views(); }
        assert(self.entities@[entity as int].components.len() == C_COUNT);
        self.entities[entity].components.set(index, Some(component));
        proof {
            self.lemma_views();
            assert forall|e: int| 0 <= e < self.entities.len() implies #[trigger] self.entities@[e].components.len()
                == C_COUNT by {
                if e != entity {
                    assert(self.entities@[e] == old(self).entities@[e]);
                }
            }
            assert(self.slots() =~= old(self).slots().update(
                entity as int,
                old(self).slots()[entity as int].update(index as int, Some(component)),
            ));
            assert(self.alive() =~= old(self).alive());
        }
    }

    /// Adds a live entity with every slot empty and returns its index: the most recently
    /// freed index when there is one, a new index at the end otherwise.
    pub fn add_entity(&mut self) -> (entity: usize)
        requires
            old(self).wf(),
            old(self).holes().len() > 0 || old(self).slots().len() < usize::MAX,
        ensures
            final(self).wf(),
            final(self).systems() == old(self).systems(),
            final(self).renderers() == old(self).renderers(),
            entity == next_entity(old(self).holes(), old(self).slots().len() as int),
            entity < final(self).slots().len(),
            old(self).holes().len() > 0 ==> {
                &&& entity == old(self).holes().last()
                &&& final(self).holes() == old(self).holes().drop_last()
                &&& final(self).slots() == old(self).slots().update(
                    entity as int,
                    Seq::new(C_COUNT as nat, |_i: int| None::<P>),
                )
                &&& final(self).alive() == old(self).alive().update(entity as int, true)
            },
            old(self).holes().len() == 0 ==> {
                &&& entity == old(self).slots().len()
                &&& final(self).holes() == old(self).holes()
                &&& final(self).slots() == old(self).slots().push(
                    Seq::new(C_COUNT as nat, |_i: int| None::<P>),
                )
                &&& final(self).alive() == old(self).alive().push(true)
            },
    {
        proof { self.lemma_views(); }
        let new = Entity::new();
        if self.holes.len() > 0 {
            let index = self.holes.pop().unwrap();
            assert(old(self).holes@[old(self).holes.len() - 1] == index);
            self.entities.set(index, new);
            proof {
                self.lemma_views();
                assert forall|e: int| 0 <= e < self.entities.len() implies #[trigger] self.entities@[e].components.len()
                    == C_COUNT by {
                    if e != index {
                        assert(self.entities@[e] == old(self).entities@[e]);
                    }
                }
                assert forall|h: int| 0 <= h < self.holes.len() implies #[trigger] self.holes@[h] < self.entities.len() by {
                    assert(self.holes@[h] == old(self).holes@[h]);
                }
                assert(self.slots() =~= old(self).slots().update(
                    index as int,
                    Seq::new(C_COUNT as nat, |_i: int| None::<P>),
                ));
                assert(self.alive() =~= old(self).alive().update(index as int, true));
            }
            return index;
        }
        self.entities.push(new);
        proof {
            self.lemma_views();
            assert forall|e: int| 0 <= e < self.entities.len() implies #[trigger] self.entities@[e].components.len()
                == C_COUNT by {
                if e < old(self).entities.len() {
                    assert(self.entities@[e] == old(self).entities@[e]);
                }
            }
            assert(self.slots() =~= old(self).slots().push(
                Seq::new(C_COUNT as nat, |_i: int| None::<P>),
            ));
            assert(self.alive() =~= old(self).alive().push(true));
        }
        self.entities.len() - 1
    }

    /// Marks entity `entity` dead and frees its index for reuse.
    pub fn remove_entity(&mut self, entity: usize)
        requires
            old(self).wf(),
            entity < old(self).slots().len(),
        ensures
            final(self).wf(),
            final(self).slots() == old(self).slots(),
            final(self).alive() == old(self).alive().update(entity as int, false),
            final(self).holes() == old(self).holes().push(entity),
            final(self).systems() == old(self).systems(),
            final(self).renderers() == old(self).renderers(),
    {
        proof { self.lemma_views(); }
        self.entities[entity].alive = false;
        self.holes.push(entity);
        proof {
            self.lemma_views();
            assert forall|e: int| 0 <= e < self.entities.len() implies #[trigger] self.entities@[e].components.len()
                == C_COUNT by {
                if e != entity {
                    assert(self.entities@[e] == old(self).entities@[e]);
                }
            }
            assert forall|h: int| 0 <= h < self.holes.len() implies #[trigger] self.holes@[h] < self.entities.len() by {
                if h < old(self).holes.len() {
                    assert(self.holes@[h] == old(self).holes@[h]);
                }
            }
            assert(self.slots() =~= old(self).slots());
            assert(self.alive() =~= old(self).alive().update(entity as int, false));
        }
    }

    /// Whether entity `entity` has a component in every slot listed in `components`.
    pub fn is_match(&self, entity: usize, components: &[usize]) -> (m: bool)
        requires
            self.wf(),
            entity < self.slots().len(),
            forall|k: int| 0 <= k < components@.len() ==> #[trigger] components@[k] < C_COUNT,
        ensures
            m == has_all(self.slots()[entity as int], components@),
    {
        proof { self.lemma_views(); }
        assert(self.entities@[entity as int].components.len() == C_COUNT);
        let mut m = true;
        let mut k: usize = 0;
        while k < components.len()
            invariant
                k <= components@.len(),
                entity < self.entities.len(),
                self.entities@[entity as int].components.len() == C_COUNT,
                forall|n: int| 0 <= n < components@.len() ==> #[trigger] components@[n] < C_COUNT,
                m == has_all(self.slots()[entity as int], components@.take(k as int)),
            decreases components@.len() - k,
        {
            let component = components[k];
            let ghost slots = self.slots()[entity as int];
            assert(slots == self.entities@[entity as int].components@);
            m = m && self.entities[entity].components[component].is_some();
            assert(components@.take(k + 1) =~= components@.take(k as int).push(component));
            assert(m == has_all(slots, components@.take(k + 1))) by {
                let t = components@.take(k + 1);
                if m {
                    assert forall|n: int| 0 <= n < t.len() implies slots[#[trigger] t[n] as int] is Some by {
                        if n < k {
                            assert(t[n] == components@.take(k as int)[n]);
                        }
                    }
                } else {
                    if !has_all(slots, components@.take(k as int)) {
                        let n = choose|n: int| 0 <= n < k && !(slots[#[trigger] components@.take(k as int)[n] as int] is Some);
                        assert(t[n] == components@.take(k as int)[n]);
                    } else {
                        assert(t[k as int] == component);
                    }
                }
            }
            k += 1;
        }
        assert(components@.take(components@.len() as int) =~= components@);
        m
    }

    /// Registers a system after the others.
    pub fn add_system(&mut self, system: System<S>)
        requires
            old(self).wf(),
        ensures
            final(self).wf(),
            final(self).systems() == old(self).systems().push(system),
            final(self).slots() == old(self).slots(),
            final(self).alive() == old(self).alive(),
            final(self).holes() == old(self).holes(),
            final(self).renderers() == old(self).renderers(),
    {
        proof { self.lemma_views(); }
        self.systems.push(system);
        proof { self.lemma_views(); }
    }

    /// Registers a renderer after the others.
    pub fn add_renderer(&mut self, r: Renderer<R>)
        requires
            old(self).wf(),
        ensures
            final(self).wf(),
            final(self).renderers() == old(self).renderers().push(r),
            final(self).slots() == old(self).slots(),
            final(self).alive() == old(self).alive(),
            final(self).holes() == old(self).holes(),
            final(self).systems() == old(self).systems(),
    {
        proof { self.lemma_views(); }
        self.renderers.push(r);
        proof { self.lemma_views(); }
    }

    /// Number of registered systems.
    pub fn system_count(&self) -> (n: usize)
        ensures
            n == self.systems().len(),
    {
        self.systems.len()
    }

    /// The system registered `i`-th.
    pub fn system(&self, i: usize) -> (s: &System<S>)
        requires
            i < self.systems().len(),
        ensures
            *s == self.systems()[i as int],
    {
        &self.systems[i]
    }

    /// Number of registered renderers.
    pub fn renderer_count(&self) -> (n: usize)
        ensures
            n == self.renderers().len(),
    {
        self.renderers.len()
    }

    /// The renderer registered `i`-th.
    pub fn renderer(&self, i: usize) -> (r: &Renderer<R>)
        requires
            i < self.renderers().len(),
        ensures
            *r == self.renderers()[i as int],
    {
        &self.renderers[i]
    }

    /// Whether the update step runs system `system_i` on entity `entity`: the entity is
    /// alive and has every component the system asks for.
    pub fn runs_system(&self, entity: usize, system_i: usize) -> (runs: bool)
        requires
            self.wf(),
            entity < self.slots().len(),
            system_i < self.systems().len(),
            forall|k: int|
                0 <= k < self.systems()[system_i as int].filter@.len()
                    ==> #[trigger] self.systems()[system_i as int].filter@[k] < C_COUNT,
        ensures
            runs == (has_all(self.slots()[entity as int], self.systems()[system_i as int].filter@)
                && self.alive()[entity as int]),
    {
        proof { self.lemma_views(); }
        let system = &self.systems[system_i];
        self.is_match(entity, system.filter.as_slice()) && self.entities[entity].alive
    }

    /// The live entities that have every component in `filter`, in index order: the
    /// entities a renderer with that filter draws.
    pub fn matching_entities(&self, filter: &[usize]) -> (entities: Vec<usize>)
        requires
            self.wf(),
            forall|k: int| 0 <= k < filter@.len() ==> #[trigger] filter@[k] < C_COUNT,
        ensures
            entities@ == matching_prefix(self.slots(), self.alive(), filter@, self.slots().len() as int),
    {
        proof { self.lemma_views(); }
        let mut entities: Vec<usize> = Vec::new();
        let mut entity: usize = 0;
        while entity < self.entities.len()
            invariant
                self.wf(),
                forall|k: int| 0 <= k < filter@.len() ==> #[trigger] filter@[k] < C_COUNT,
                entity <= self.entities.len(),
                entities@ == matching_prefix(self.slots(), self.alive(), filter@, entity as int),
            decreases self.entities.len() - entity,
        {
            if self.is_match(entity, filter) && self.entities[entity].alive {
                entities.push(entity);
            }
            entity += 1;
        }
        entities
    }
}

/// The component slots of all entities after slot `i` of entity `e` is set to `v`.
pub open spec fn with_slot<P>(slots: Seq<Seq<Option<P>>>, e: int, i: int, v: Option<P>) -> Seq<
    Seq<Option<P>>,
> {
    slots.update(e, slots[e].update(i, v))
}

/// The index `add_entity` hands out: the most recently freed one, or the next new one.
pub open spec fn next_entity(holes: Seq<usize>, count: int) -> int {
    if holes.len() > 0 {
        holes.last() as int
    } else {
        count
    }
}

/// In a well-formed store, reading a component slot after `set_component` or
/// `remove_component` wrote `v` there gives `v`; every other slot of every entity keeps its
/// contents, and the number of entities stays the same.
pub proof fn lemma_slot_read_after_write<P, S, R>(
    ecs: &Ecs<P, S, R>,
    entity: int,
    index: int,
    v: Option<P>,
    e2: int,
    i2: int,
)
    requires
        ecs.wf(),
        0 <= entity < ecs.slots().len(),
        0 <= index < C_COUNT,
    ensures
        with_slot(ecs.slots(), entity, index, v)[entity][index] == v,
        0 <= e2 < ecs.slots().len() && 0 <= i2 < C_COUNT && (e2 != entity || i2 != index)
            ==> with_slot(ecs.slots(), entity, index, v)[e2][i2] == ecs.slots()[e2][i2],
        with_slot(ecs.slots(), entity, index, v).len() == ecs.slots().len(),
{
    assert(ecs.slots()[entity].len() == C_COUNT);
}

/// An entity index freed by `remove_entity` is the very next one `add_entity` hands out.
pub proof fn lemma_freed_index_reused_first(holes: Seq<usize>, entity: usize, count: int)
    ensures
        next_entity(holes.push(entity), count) == entity,
{
}

/// Whether `slots` has a component in every slot listed in `components`.
pub open spec fn has_all<P>(slots: Seq<Option<P>>, components: Seq<usize>) -> bool {
    forall|k: int| 0 <= k < components.len() ==> slots[#[trigger] components[k] as int] is Some
}

/// The live entities among the first `n` that have every component in `filter`, in order.
pub open spec fn matching_prefix<P>(
    slots: Seq<Seq<Option<P>>>,
    alive: Seq<bool>,
    filter: Seq<usize>,
    n: int,
) -> Seq<usize>
    decreases n,
{
    if n <= 0 {
        seq![]
    } else {
        let rest = matching_prefix(slots, alive, filter, n - 1);
        if has_all(slots[n - 1], filter) && alive[n - 1] {
            rest.push((n - 1) as usize)
        } else {
            rest
        }
    }
}

} // verus!
