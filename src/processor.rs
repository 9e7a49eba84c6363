//! The packet registry: which handler serves which packet id.

use vstd::prelude::*;
use std::collections::HashMap;
use crate::packet::PacketType;

verus! {

broadcast use vstd::std_specs::hash::group_hash_axioms;

/// One handler bound to one packet type, declared before the registry is filled.
pub struct PacketProcessorRegistration<H> {
    pub packet_id: PacketType,
    pub processor: H,
}

/// The mapping that a run of registrations makes, in order: a later
/// registration of the same id replaces an earlier one.
pub open spec fn registrations_map<H>(regs: Seq<PacketProcessorRegistration<H>>) -> Map<u32, H>
    decreases regs.len(),
{
    if regs.len() == 0 {
        Map::empty()
    } else {
        registrations_map(regs.drop_last()).insert(regs.last().packet_id.spec_id(), regs.last().processor)
    }
}

/// The mapping after initialisation from `regs`: unchanged if it already held
/// anything, else the mapping that the registrations make.
pub open spec fn initialized<H>(m: Map<u32, H>, regs: Seq<PacketProcessorRegistration<H>>) -> Map<u32, H> {
    if m.is_empty() {
        registrations_map(regs)
    } else {
        m
    }
}

/// Map from packet id to handler. At most one handler per id.
pub struct PacketRegistry<H> {
    handlers: HashMap<u32, H>,
}

impl<H> View for PacketRegistry<H> {
    type V = Map<u32, H>;

    closed spec fn view(&self) -> Map<u32, H> {
        self.handlers@
    }
}

impl<H: Copy> PacketRegistry<H> {
    /// An empty registry.
    pub fn new() -> (r: PacketRegistry<H>)
        ensures
            r@ == Map::<u32, H>::empty(),
    {
        PacketRegistry { handlers: HashMap::new() }
    }

    /// Binds `handler` to `packet_id`, replacing any handler it had.
    pub fn register(&mut self, packet_id: u32, handler: H)
        ensures
            final(self)@ == old(self)@.insert(packet_id, handler),
    {
        self.handlers.insert(packet_id, handler);
    }

    /// Whether no handler is registered.
    pub fn is_empty(&self) -> (e: bool)
        ensures
            e == self@.is_empty(),
    {
        self.handlers.is_empty()
    }
}

/// Fills the registry from `registrations`, in order, unless it already holds
/// a handler; then it is left as it is.
pub fn init_packet_processors<H: Copy>(registry: &mut PacketRegistry<H>, registrations: &[PacketProcessorRegistration<H>])
    ensures
        final(registry)@ == initialized(old(registry)@, registrations@),
{
    if !registry.is_empty() {
        return;
    }
    let mut i: usize = 0;
    while i < registrations.len()
        invariant
            i <= registrations@.len(),
            old(registry)@.is_empty(),
            registry@ == registrations_map(registrations@.take(i as int)),
        decreases registrations@.len() - i,
    {
        let packet_id = registrations[i].packet_id.id();
        let processor = registrations[i].processor;
        registry.register(packet_id, processor);
        assert(registrations@.take(i + 1).drop_last() =~= registrations@.take(i as int));
        i = i + 1;
    }
    assert(registrations@.take(registrations@.len() as int) =~= registrations@);
    assert(registrations_map(registrations@.take(0)) =~= Map::<u32, H>::empty());
}

/// The handler bound to `packet_id`, if any.
pub fn get_handler<H: Copy>(registry: &PacketRegistry<H>, packet_id: u32) -> (r: Option<H>)
    ensures
        r == (if registry@.contains_key(packet_id) { Some(registry@[packet_id]) } else { None }),
{
    match registry.handlers.get(&packet_id) {
        Some(h) => Some(*h),
        None => None,
    }
}

/// Initialising twice from the same registrations leaves the mapping that
/// initialising once leaves.
pub proof fn lemma_init_idempotent<H>(m: Map<u32, H>, regs: Seq<PacketProcessorRegistration<H>>)
    ensures
        initialized(initialized(m, regs), regs) == initialized(m, regs),
{
}

/// After an empty registry is initialised, an id has a handler exactly when
/// some registration names it.
pub proof fn lemma_init_lookup_registered<H>(regs: Seq<PacketProcessorRegistration<H>>, id: u32)
    ensures
        initialized(Map::empty(), regs).contains_key(id)
            <==> exists|i: int| 0 <= i < regs.len() && #[trigger] regs[i].packet_id.spec_id() == id,
    decreases regs.len(),
{
    assert(Map::<u32, H>::empty().is_empty());
    if regs.len() > 0 {
        let init = regs.drop_last();
        lemma_init_lookup_registered(init, id);
        let last = regs.len() - 1;
        if regs[last].packet_id.spec_id() == id {
            assert(regs[last].packet_id.spec_id() == id);
        } else {
            if exists|i: int| 0 <= i < regs.len() && #[trigger] regs[i].packet_id.spec_id() == id {
                let i = choose|i: int| 0 <= i < regs.len() && #[trigger] regs[i].packet_id.spec_id() == id;
                assert(init[i].packet_id.spec_id() == id);
            }
            if exists|i: int| 0 <= i < init.len() && #[trigger] init[i].packet_id.spec_id() == id {
                let i = choose|i: int| 0 <= i < init.len() && #[trigger] init[i].packet_id.spec_id() == id;
                assert(regs[i].packet_id.spec_id() == id);
            }
        }
    }
}

/// After an empty registry is initialised, the id of registration `i` maps to
/// its handler when no later registration names the same id.
pub proof fn lemma_init_lookup_handler<H>(regs: Seq<PacketProcessorRegistration<H>>, i: int)
    requires
        0 <= i < regs.len(),
        forall|j: int| i < j < regs.len() ==> #[trigger] regs[j].packet_id.spec_id() != regs[i].packet_id.spec_id(),
    ensures
        initialized(Map::empty(), regs).contains_key(regs[i].packet_id.spec_id()),
        initialized(Map::empty(), regs)[regs[i].packet_id.spec_id()] == regs[i].processor,
    decreases regs.len(),
{
    assert(Map::<u32, H>::empty().is_empty());
    let last = regs.len() - 1;
    if i < last {
        let init = regs.drop_last();
        assert(init[i] == regs[i]);
        assert forall|j: int| i < j < init.len() implies #[trigger] init[j].packet_id.spec_id() != init[i].packet_id.spec_id() by {
            assert(init[j] == regs[j]);
        }
        lemma_init_lookup_handler(init, i);
        assert(regs[last].packet_id.spec_id() != regs[i].packet_id.spec_id());
    }
}

} // verus!
