//! Who stands on ground: contacts gathered per sensor, and the flag that
//! follows from them.

use crate::grid::EntityId;
use crate::tables::EntitySet;
use vstd::prelude::*;

verus! {

/// Whether an entity stands on ground.
#[derive(Clone, Copy, Debug, Default, PartialEq, Eq, Structural)]
pub struct GroundDetection {
    pub on_ground: bool,
}

/// One change of what a sensor touches.
#[derive(Clone, Copy, Debug, PartialEq, Eq, Structural)]
pub enum Contact {
    /// The entity has begun to overlap the sensor.
    Begin(EntityId),
    /// The entity has ceased to overlap the sensor.
    End(EntityId),
}

/// What a sensor touches after one change.
pub open spec fn after_contact(touching: Set<EntityId>, contact: Contact) -> Set<EntityId> {
    match contact {
        Contact::Begin(entity) => touching.insert(entity),
        Contact::End(entity) => touching.remove(entity),
    }
}

/// What a sensor touches after the changes, taken in their order.
pub open spec fn after_contacts(touching: Set<EntityId>, contacts: Seq<Contact>) -> Set<EntityId>
    decreases contacts.len(),
{
    if contacts.len() == 0 {
        touching
    } else {
        after_contact(after_contacts(touching, contacts.drop_last()), contacts.last())
    }
}

/// What a ground sensor says at one moment: whether the entity `detector`
/// stands on ground.
#[derive(Clone, Copy, Debug, PartialEq, Eq, Structural)]
pub struct GroundReading {
    pub detector: EntityId,
    pub grounded: bool,
}

/// The ground sensor of an entity: the entity whose flag it feeds, and the
/// ground-like entities that overlap it now.
pub struct GroundSensor {
    ground_detection_entity: EntityId,
    intersecting_ground_entities: EntitySet,
}

impl GroundSensor {
    /// The entity whose `GroundDetection` the sensor feeds.
    pub closed spec fn detector(&self) -> EntityId {
        self.ground_detection_entity
    }

    /// The entities that overlap the sensor.
    pub closed spec fn touching(&self) -> Set<EntityId> {
        self.intersecting_ground_entities@
    }

    /// What the sensor says of its entity: on ground while anything overlaps.
    pub open spec fn grounded(&self) -> bool {
        self.touching() != Set::<EntityId>::empty()
    }

    /// A sensor for `detector` that touches nothing.
    pub fn new(detector: EntityId) -> (sensor: Self)
        ensures
            sensor.detector() == detector,
            sensor.touching() == Set::<EntityId>::empty(),
    {
        GroundSensor {
            ground_detection_entity: detector,
            intersecting_ground_entities: EntitySet::new(),
        }
    }

    /// The entity whose `GroundDetection` the sensor feeds.
    pub fn ground_detection_entity(&self) -> (detector: EntityId)
        ensures
            detector == self.detector(),
    {
        self.ground_detection_entity
    }

    /// Whether the entity overlaps the sensor.
    pub fn is_touching(&self, entity: EntityId) -> (found: bool)
        ensures
            found == self.touching().contains(entity),
    {
        self.intersecting_ground_entities.contains(entity)
    }

    /// Whether anything overlaps the sensor.
    pub fn on_ground(&self) -> (grounded: bool)
        ensures
            grounded == self.grounded(),
    {
        !self.intersecting_ground_entities.is_empty()
    }

    /// What the sensor says now, and of whom.
    pub fn reading(&self) -> (reading: GroundReading)
        ensures
            reading.detector == self.detector(),
            reading.grounded == self.grounded(),
    {
        GroundReading { detector: self.ground_detection_entity, grounded: self.on_ground() }
    }

    /// Takes in one change. A begin of what overlaps already and an end of
    /// what does not overlap change nothing.
    pub fn apply(&mut self, contact: Contact)
        ensures
            final(self).detector() == old(self).detector(),
            final(self).touching() == after_contact(old(self).touching(), contact),
    {
        match contact {
            Contact::Begin(entity) => {
                self.intersecting_ground_entities.insert(entity);
            },
            Contact::End(entity) => {
                self.intersecting_ground_entities.remove(entity);
            },
        }
    }

    /// Takes in the changes in their order.
    pub fn apply_all(&mut self, contacts: &Vec<Contact>)
        ensures
            final(self).detector() == old(self).detector(),
            final(self).touching() == after_contacts(old(self).touching(), contacts@),
    {
        let mut i: usize = 0;
        while i < contacts.len()
            invariant
                i <= contacts.len(),
                self.detector() == old(self).detector(),
                self.touching() == after_contacts(old(self).touching(), contacts@.take(i as int)),
            decreases contacts.len() - i,
        {
            proof {
                assert(contacts@.take(i + 1).drop_last() =~= contacts@.take(i as int));
            }
            self.apply(contacts[i]);
            i = i + 1;
        }
        proof {
            assert(contacts@.take(i as int) =~= contacts@);
        }
    }
}

/// The number of begins among the changes that made an entity overlap which
/// did not overlap before.
pub open spec fn begins_counted(touching: Set<EntityId>, contacts: Seq<Contact>) -> nat
    decreases contacts.len(),
{
    if contacts.len() == 0 {
        0
    } else {
        let earlier = begins_counted(touching, contacts.drop_last());
        match contacts.last() {
            Contact::Begin(entity) => if after_contacts(touching, contacts.drop_last()).contains(
                entity,
            ) {
                earlier
            } else {
                earlier + 1
            },
            Contact::End(_) => earlier,
        }
    }
}

/// The number of ends among the changes that ended an overlap.
pub open spec fn ends_counted(touching: Set<EntityId>, contacts: Seq<Contact>) -> nat
    decreases contacts.len(),
{
    if contacts.len() == 0 {
        0
    } else {
        let earlier = ends_counted(touching, contacts.drop_last());
        match contacts.last() {
            Contact::Begin(_) => earlier,
            Contact::End(entity) => if after_contacts(touching, contacts.drop_last()).contains(
                entity,
            ) {
                earlier + 1
            } else {
                earlier
            },
        }
    }
}

/// After any changes, a sensor that began with nothing touches as many
/// entities as begins were counted less the ends that were counted: never
/// fewer than none, whatever ends came without a begin. It says "on ground"
/// exactly while that number is above zero.
pub proof fn lemma_grounded_while_begins_outnumber_ends(contacts: Seq<Contact>)
    ensures
        after_contacts(Set::empty(), contacts).finite(),
        ends_counted(Set::empty(), contacts) <= begins_counted(Set::empty(), contacts),
        after_contacts(Set::empty(), contacts).len() == begins_counted(Set::empty(), contacts)
            - ends_counted(Set::empty(), contacts),
        after_contacts(Set::empty(), contacts) != Set::<EntityId>::empty()
            <==> begins_counted(Set::empty(), contacts) - ends_counted(Set::empty(), contacts) > 0,
    decreases contacts.len(),
{
    let none = Set::<EntityId>::empty();
    if contacts.len() > 0 {
        lemma_grounded_while_begins_outnumber_ends(contacts.drop_last());
    }
    let now = after_contacts(none, contacts);
    if now.len() == 0 {
        now.lemma_len0_is_empty();
    } else {
        assert(now != none);
    }
}

/// Two entities have begun or ceased to overlap, as the physics engine
/// reports it.
#[derive(Clone, Copy, Debug, PartialEq, Eq, Structural)]
pub enum ContactEvent {
    Started(EntityId, EntityId),
    Stopped(EntityId, EntityId),
}

/// What an entity carries, in a slot of a list.
pub trait Slot {
    /// The entity that carries what the slot holds.
    spec fn carrier(&self) -> EntityId;

    /// The entity that carries what the slot holds.
    fn carried_by(&self) -> (entity: EntityId)
        ensures
            entity == self.carrier(),
    ;
}

/// A ground sensor and the entity that carries it.
pub struct SensorSlot {
    pub entity: EntityId,
    pub sensor: GroundSensor,
}

/// A ground flag and the entity that carries it.
#[derive(Clone, Copy, Debug, PartialEq, Eq, Structural)]
pub struct DetectorSlot {
    pub entity: EntityId,
    pub detection: GroundDetection,
}

impl Slot for SensorSlot {
    open spec fn carrier(&self) -> EntityId {
        self.entity
    }

    fn carried_by(&self) -> (entity: EntityId) {
        self.entity
    }
}

impl Slot for DetectorSlot {
    open spec fn carrier(&self) -> EntityId {
        self.entity
    }

    fn carried_by(&self) -> (entity: EntityId) {
        self.entity
    }
}

/// The entities that carry what the slots hold, slot by slot.
pub open spec fn carriers<S: Slot>(slots: Seq<S>) -> Seq<EntityId> {
    slots.map_values(|slot: S| slot.carrier())
}

/// The first slot of `entity`, if it has one.
pub open spec fn slot_of(entities: Seq<EntityId>, entity: EntityId) -> Option<int>
    decreases entities.len(),
{
    if entities.len() == 0 {
        None
    } else {
        match slot_of(entities.drop_last(), entity) {
            Some(slot) => Some(slot),
            None => if entities.last() == entity {
                Some(entities.len() - 1)
            } else {
                None
            },
        }
    }
}

/// A slot found among the first `upto` entities is the slot among them all.
pub proof fn lemma_slot_stays(entities: Seq<EntityId>, upto: int, entity: EntityId)
    requires
        0 <= upto <= entities.len(),
        slot_of(entities.take(upto), entity).is_some(),
    ensures
        slot_of(entities, entity) == slot_of(entities.take(upto), entity),
    decreases entities.len() - upto,
{
    if upto == entities.len() {
        assert(entities.take(upto) =~= entities);
    } else {
        assert(entities.take(upto + 1).drop_last() =~= entities.take(upto));
        lemma_slot_stays(entities, upto + 1, entity);
    }
}

/// A slot that `slot_of` names holds the entity.
pub proof fn lemma_slot_holds(entities: Seq<EntityId>, entity: EntityId)
    ensures
        slot_of(entities, entity) matches Some(slot) ==> 0 <= slot < entities.len()
            && entities[slot] == entity,
    decreases entities.len(),
{
    if entities.len() > 0 {
        lemma_slot_holds(entities.drop_last(), entity);
    }
}

/// The sensor that an event changes and the change, if the event concerns a
/// sensor at all.
///
/// The ground-like entity of the pair is the first of the two that is
/// collidable; the other one must carry a sensor.
pub open spec fn routed(
    event: ContactEvent,
    collidables: Set<EntityId>,
    sensors: Seq<EntityId>,
) -> Option<(int, Contact)> {
    match event {
        ContactEvent::Started(first, second) => if collidables.contains(first) {
            match slot_of(sensors, second) {
                Some(slot) => Some((slot, Contact::Begin(first))),
                None => None,
            }
        } else if collidables.contains(second) {
            match slot_of(sensors, first) {
                Some(slot) => Some((slot, Contact::Begin(second))),
                None => None,
            }
        } else {
            None
        },
        ContactEvent::Stopped(first, second) => if collidables.contains(first) {
            match slot_of(sensors, second) {
                Some(slot) => Some((slot, Contact::End(first))),
                None => None,
            }
        } else if collidables.contains(second) {
            match slot_of(sensors, first) {
                Some(slot) => Some((slot, Contact::End(second))),
                None => None,
            }
        } else {
            None
        },
    }
}

/// The changes that the events bring to the sensor in `slot`, in their order.
pub open spec fn contacts_for(
    events: Seq<ContactEvent>,
    collidables: Set<EntityId>,
    sensors: Seq<EntityId>,
    slot: int,
) -> Seq<Contact>
    decreases events.len(),
{
    if events.len() == 0 {
        Seq::empty()
    } else {
        let earlier = contacts_for(events.drop_last(), collidables, sensors, slot);
        match routed(events.last(), collidables, sensors) {
            Some((to, contact)) => if to == slot {
                earlier.push(contact)
            } else {
                earlier
            },
            None => earlier,
        }
    }
}

/// The slots of the sensors that the events reach, one for each event that
/// concerns a sensor, in their order.
pub open spec fn slots_reached(
    events: Seq<ContactEvent>,
    collidables: Set<EntityId>,
    sensors: Seq<EntityId>,
) -> Seq<int>
    decreases events.len(),
{
    if events.len() == 0 {
        Seq::empty()
    } else {
        let earlier = slots_reached(events.drop_last(), collidables, sensors);
        match routed(events.last(), collidables, sensors) {
            Some((to, _)) => earlier.push(to),
            None => earlier,
        }
    }
}

/// The first slot that holds something carried by `entity`.
pub fn find_slot<S: Slot>(slots: &Vec<S>, entity: EntityId) -> (found: Option<usize>)
    ensures
        match found {
            Some(slot) => slot_of(carriers(slots@), entity) == Some(slot as int) && slot
                < slots.len(),
            None => slot_of(carriers(slots@), entity).is_none(),
        },
{
    let ghost entities = carriers(slots@);
    let mut i: usize = 0;
    while i < slots.len()
        invariant
            i <= slots.len(),
            entities == carriers(slots@),
            slot_of(entities.take(i as int), entity).is_none(),
        decreases slots.len() - i,
    {
        proof {
            assert(entities.take(i + 1).drop_last() =~= entities.take(i as int));
        }
        if slots[i].carried_by() == entity {
            proof {
                lemma_slot_stays(entities, i + 1, entity);
            }
            return Some(i);
        }
        i = i + 1;
    }
    proof {
        assert(entities.take(i as int) =~= entities);
    }
    None
}

/// Whether the sensors are those of `before`, with the changes that the
/// events bring taken in.
pub open spec fn sensors_follow(
    before: Seq<SensorSlot>,
    events: Seq<ContactEvent>,
    collidables: Set<EntityId>,
    after: Seq<SensorSlot>,
) -> bool {
    &&& after.len() == before.len()
    &&& forall|slot: int|
        0 <= slot < before.len() ==> (#[trigger] after[slot]).entity == before[slot].entity
            && after[slot].sensor.detector() == before[slot].sensor.detector()
            && after[slot].sensor.touching() == after_contacts(
            before[slot].sensor.touching(),
            contacts_for(events, collidables, carriers(before), slot),
        )
}

/// Takes the contact events into the ground sensors.
///
/// An event concerns a sensor where one entity of the pair is collidable and
/// the other carries a sensor: a start puts the collidable entity among
/// those that the sensor touches, a stop takes it out. Any other event is
/// passed over; a stop of what the sensor does not touch reaches the
/// sensor and changes nothing.
///
/// Returns the slots of the sensors that were reached, one for each event
/// that concerned a sensor.
pub fn ground_detection(
    sensors: &mut Vec<SensorSlot>,
    events: &Vec<ContactEvent>,
    collidables: &EntitySet,
) -> (reached: Vec<usize>)
    ensures
        sensors_follow(old(sensors)@, events@, collidables@, final(sensors)@),
        reached@.map_values(|slot: usize| slot as int) == slots_reached(
            events@,
            collidables@,
            carriers(old(sensors)@),
        ),
        forall|k: int| 0 <= k < reached.len() ==> #[trigger] reached[k] < old(sensors).len(),
{
    let ghost before = sensors@;
    let ghost entities = carriers(before);
    let mut reached: Vec<usize> = Vec::new();
    let mut i: usize = 0;
    while i < events.len()
        invariant
            i <= events.len(),
            before == old(sensors)@,
            entities == carriers(before),
            sensors_follow(before, events@.take(i as int), collidables@, sensors@),
            reached@.map_values(|slot: usize| slot as int) == slots_reached(
                events@.take(i as int),
                collidables@,
                entities,
            ),
            forall|k: int| 0 <= k < reached.len() ==> #[trigger] reached[k] < before.len(),
        decreases events.len() - i,
    {
        let ghost told = reached@;
        let ghost seen = events@.take(i as int);
        let ghost next = events@.take(i + 1);
        let ghost held = sensors@;
        proof {
            assert(next.drop_last() =~= seen);
            assert(next.last() == events@[i as int]);
            assert(carriers(held) =~= entities);
        }
        let (ground, other, begins) = match events[i] {
            ContactEvent::Started(first, second) => if collidables.contains(first) {
                (Some(first), second, true)
            } else if collidables.contains(second) {
                (Some(second), first, true)
            } else {
                (None, first, true)
            },
            ContactEvent::Stopped(first, second) => if collidables.contains(first) {
                (Some(first), second, false)
            } else if collidables.contains(second) {
                (Some(second), first, false)
            } else {
                (None, first, false)
            },
        };
        let target = match ground {
            Some(entity) => match find_slot(sensors, other) {
                Some(slot) => Some((slot, entity)),
                None => None,
            },
            None => None,
        };
        match target {
            Some((slot, entity)) => {
                let contact = if begins {
                    Contact::Begin(entity)
                } else {
                    Contact::End(entity)
                };
                proof {
                    assert(routed(events@[i as int], collidables@, entities) == Some(
                        (slot as int, contact),
                    ));
                }
                sensors[slot].sensor.apply(contact);
                reached.push(slot);
                proof {
                    assert(reached@.map_values(|slot: usize| slot as int) =~= told.map_values(
                        |slot: usize| slot as int,
                    ).push(slot as int));
                    assert forall|k: int| 0 <= k < before.len() implies (#[trigger] sensors@[k]).entity
                        == before[k].entity && sensors@[k].sensor.detector()
                        == before[k].sensor.detector() && sensors@[k].sensor.touching()
                        == after_contacts(
                        before[k].sensor.touching(),
                        contacts_for(next, collidables@, entities, k),
                    ) by {
                        assert(held[k].entity == before[k].entity);
                        if k == slot {
                            assert(contacts_for(next, collidables@, entities, k).drop_last()
                                =~= contacts_for(seen, collidables@, entities, k));
                        } else {
                            assert(sensors@[k] == held[k]);
                        }
                    }
                }
            },
            None => {
                proof {
                    assert(routed(events@[i as int], collidables@, entities).is_none());
                    assert forall|k: int| 0 <= k < before.len() implies contacts_for(
                        next,
                        collidables@,
                        entities,
                        k,
                    ) == contacts_for(seen, collidables@, entities, k) by {}
                }
            },
        }
        i = i + 1;
    }
    proof {
        assert(events@.take(i as int) =~= events@);
    }
    reached
}

/// One of the readings is for the detector in `slot`.
pub open spec fn any_reading(
    readings: Seq<GroundReading>,
    detectors: Seq<EntityId>,
    slot: int,
) -> bool {
    exists|i: int|
        0 <= i < readings.len() && slot_of(detectors, (#[trigger] readings[i]).detector) == Some(
            slot,
        )
}

/// One of the readings for the detector in `slot` says "on ground".
pub open spec fn any_grounded(
    readings: Seq<GroundReading>,
    detectors: Seq<EntityId>,
    slot: int,
) -> bool {
    exists|i: int|
        0 <= i < readings.len() && slot_of(detectors, (#[trigger] readings[i]).detector) == Some(
            slot,
        ) && readings[i].grounded
}

/// The flag of the detector in `slot` after the readings: on ground while
/// any of the readings for it says so, whatever their order; `flag` where
/// there is no reading for it.
pub open spec fn flag_after(
    flag: bool,
    readings: Seq<GroundReading>,
    detectors: Seq<EntityId>,
    slot: int,
) -> bool {
    if any_reading(readings, detectors, slot) {
        any_grounded(readings, detectors, slot)
    } else {
        flag
    }
}

/// Whether the flags are those of `before`, each set by the readings for
/// it.
pub open spec fn flags_follow(
    before: Seq<DetectorSlot>,
    readings: Seq<GroundReading>,
    after: Seq<DetectorSlot>,
) -> bool {
    &&& after.len() == before.len()
    &&& forall|slot: int|
        0 <= slot < before.len() ==> (#[trigger] after[slot]).entity == before[slot].entity
            && after[slot].detection.on_ground == flag_after(
            before[slot].detection.on_ground,
            readings,
            carriers(before),
            slot,
        )
}

/// Taking one more reading adds that reading, and nothing else, to what is
/// known of a slot.
proof fn lemma_one_more_reading(
    readings: Seq<GroundReading>,
    i: int,
    detectors: Seq<EntityId>,
    slot: int,
)
    requires
        0 <= i < readings.len(),
    ensures
        any_reading(readings.take(i + 1), detectors, slot) <==> any_reading(
            readings.take(i),
            detectors,
            slot,
        ) || slot_of(detectors, readings[i].detector) == Some(slot),
        any_grounded(readings.take(i + 1), detectors, slot) <==> any_grounded(
            readings.take(i),
            detectors,
            slot,
        ) || (slot_of(detectors, readings[i].detector) == Some(slot) && readings[i].grounded),
{
    let seen = readings.take(i);
    let next = readings.take(i + 1);
    if any_reading(next, detectors, slot) {
        let k = choose|k: int|
            0 <= k < next.len() && slot_of(detectors, (#[trigger] next[k]).detector) == Some(slot);
        if k < i {
            assert(slot_of(detectors, seen[k].detector) == Some(slot));
        }
    }
    if any_reading(seen, detectors, slot) {
        let k = choose|k: int|
            0 <= k < seen.len() && slot_of(detectors, (#[trigger] seen[k]).detector) == Some(slot);
        assert(slot_of(detectors, next[k].detector) == Some(slot));
    }
    if any_grounded(next, detectors, slot) {
        let k = choose|k: int|
            0 <= k < next.len() && slot_of(detectors, (#[trigger] next[k]).detector) == Some(slot)
                && next[k].grounded;
        if k < i {
            assert(slot_of(detectors, seen[k].detector) == Some(slot) && seen[k].grounded);
        }
    }
    if any_grounded(seen, detectors, slot) {
        let k = choose|k: int|
            0 <= k < seen.len() && slot_of(detectors, (#[trigger] seen[k]).detector) == Some(slot)
                && seen[k].grounded;
        assert(slot_of(detectors, next[k].detector) == Some(slot) && next[k].grounded);
    }
    if slot_of(detectors, readings[i].detector) == Some(slot) {
        assert(slot_of(detectors, next[i].detector) == Some(slot));
    }
}

/// Sets the ground flag of each entity for which there are readings: on
/// ground while any of its sensors touches anything. A reading for an entity
/// that carries no flag is passed over, and a flag without a reading stays
/// as it is.
///
/// Returns, slot by slot, whether the flag was set.
pub fn update_on_ground(detectors: &mut Vec<DetectorSlot>, readings: &Vec<GroundReading>) -> (set:
    Vec<bool>)
    ensures
        flags_follow(old(detectors)@, readings@, final(detectors)@),
        set.len() == old(detectors).len(),
        forall|slot: int|
            0 <= slot < set.len() ==> #[trigger] set[slot] == any_reading(
                readings@,
                carriers(old(detectors)@),
                slot,
            ),
{
    let ghost before = detectors@;
    let ghost entities = carriers(before);
    let mut set: Vec<bool> = Vec::new();
    while set.len() < detectors.len()
        invariant
            set.len() <= detectors.len(),
            detectors@ == before,
            forall|slot: int| 0 <= slot < set.len() ==> !(#[trigger] set[slot]),
        decreases detectors.len() - set.len(),
    {
        set.push(false);
    }
    let mut i: usize = 0;
    while i < readings.len()
        invariant
            i <= readings.len(),
            before == old(detectors)@,
            entities == carriers(before),
            set.len() == before.len(),
            flags_follow(before, readings@.take(i as int), detectors@),
            forall|slot: int|
                0 <= slot < set.len() ==> #[trigger] set[slot] == any_reading(
                    readings@.take(i as int),
                    entities,
                    slot,
                ),
        decreases readings.len() - i,
    {
        let ghost held = detectors@;
        proof {
            assert(carriers(held) =~= entities);
            assert forall|slot: int| 0 <= slot < before.len() implies held[slot].entity
                == before[slot].entity by {}
            assert forall|slot: int| 0 <= slot < before.len() implies {
                &&& any_reading(readings@.take(i + 1), entities, slot) <==> any_reading(
                    readings@.take(i as int),
                    entities,
                    slot,
                ) || slot_of(entities, readings@[i as int].detector) == Some(slot)
                &&& any_grounded(readings@.take(i + 1), entities, slot) <==> any_grounded(
                    readings@.take(i as int),
                    entities,
                    slot,
                ) || (slot_of(entities, readings@[i as int].detector) == Some(slot)
                    && readings@[i as int].grounded)
            } by {
                lemma_one_more_reading(readings@, i as int, entities, slot);
            }
        }
        let reading = readings[i];
        match find_slot(detectors, reading.detector) {
            Some(slot) => {
                let entity = detectors[slot].entity;
                let grounded = if set[slot] {
                    detectors[slot].detection.on_ground || reading.grounded
                } else {
                    reading.grounded
                };
                detectors.set(
                    slot,
                    DetectorSlot { entity, detection: GroundDetection { on_ground: grounded } },
                );
                set.set(slot, true);
            },
            None => {},
        }
        i = i + 1;
    }
    proof {
        assert(readings@.take(i as int) =~= readings@);
    }
    set
}

/// What a sensor says, and whether the sensor has changed since its word
/// was last taken.
#[derive(Clone, Copy, Debug, PartialEq, Eq, Structural)]
pub struct SensorReport {
    pub reading: GroundReading,
    pub changed: bool,
}

/// A sensor of `detector` has changed.
pub open spec fn has_changed_sensor(reports: Seq<SensorReport>, detector: EntityId) -> bool {
    exists|i: int|
        0 <= i < reports.len() && (#[trigger] reports[i]).changed && reports[i].reading.detector
            == detector
}

/// The readings among the first `upto` reports that are due: those of every
/// sensor of an entity that has a changed sensor.
pub open spec fn readings_due(reports: Seq<SensorReport>, upto: int) -> Seq<GroundReading>
    decreases upto,
{
    if upto <= 0 {
        Seq::empty()
    } else if has_changed_sensor(reports, reports[upto - 1].reading.detector) {
        readings_due(reports, upto - 1).push(reports[upto - 1].reading)
    } else {
        readings_due(reports, upto - 1)
    }
}

/// Whether a sensor of `detector` has changed.
fn any_sensor_changed(reports: &Vec<SensorReport>, detector: EntityId) -> (changed: bool)
    ensures
        changed == has_changed_sensor(reports@, detector),
{
    let mut i: usize = 0;
    while i < reports.len()
        invariant
            i <= reports.len(),
            forall|j: int|
                0 <= j < i ==> !((#[trigger] reports[j]).changed && reports[j].reading.detector
                    == detector),
        decreases reports.len() - i,
    {
        if reports[i].changed && reports[i].reading.detector == detector {
            return true;
        }
        i = i + 1;
    }
    false
}

/// The readings to hand to `update_on_ground`: where a sensor of an entity
/// has changed, the readings of all sensors of that entity, in the order of
/// the reports. The flag of an entity follows from all its sensors, so one
/// changed sensor makes all of them due.
pub fn changed_readings(reports: &Vec<SensorReport>) -> (readings: Vec<GroundReading>)
    ensures
        readings@ == readings_due(reports@, reports.len() as int),
{
    let mut readings: Vec<GroundReading> = Vec::new();
    let mut i: usize = 0;
    while i < reports.len()
        invariant
            i <= reports.len(),
            readings@ == readings_due(reports@, i as int),
        decreases reports.len() - i,
    {
        if any_sensor_changed(reports, reports[i].reading.detector) {
            readings.push(reports[i].reading);
        }
        i = i + 1;
    }
    readings
}

} // verus!
