use platformer_core::ground::{
    changed_readings, find_slot, ground_detection, update_on_ground, Contact, ContactEvent,
    DetectorSlot, GroundDetection, GroundReading, GroundSensor, SensorReport, SensorSlot,
};
use platformer_core::tables::EntitySet;

const A: u64 = 100;
const B: u64 = 101;
const PLAYER: u64 = 1;
const FEET: u64 = 2;

fn entity_set(entities: &[u64]) -> EntitySet {
    let mut set = EntitySet::new();
    for &entity in entities {
        set.insert(entity);
    }
    set
}

#[test]
fn on_ground_until_the_last_contact_ends() {
    let mut sensor = GroundSensor::new(PLAYER);
    assert!(!sensor.on_ground());
    sensor.apply(Contact::Begin(A));
    sensor.apply(Contact::Begin(B));
    sensor.apply(Contact::End(A));
    assert!(sensor.on_ground());
    assert!(sensor.is_touching(B));
    assert!(!sensor.is_touching(A));
    sensor.apply(Contact::End(B));
    assert!(!sensor.on_ground());
}

#[test]
fn end_without_begin_changes_nothing() {
    let mut sensor = GroundSensor::new(PLAYER);
    sensor.apply(Contact::End(A));
    assert!(!sensor.on_ground());
    sensor.apply(Contact::Begin(A));
    sensor.apply(Contact::End(B));
    sensor.apply(Contact::End(B));
    assert!(sensor.on_ground());
    sensor.apply(Contact::End(A));
    sensor.apply(Contact::End(A));
    assert!(!sensor.on_ground());
    sensor.apply(Contact::Begin(A));
    assert!(sensor.on_ground());
}

#[test]
fn begin_twice_is_one_contact() {
    let mut sensor = GroundSensor::new(PLAYER);
    sensor.apply_all(&vec![Contact::Begin(A), Contact::Begin(A), Contact::End(A)]);
    assert!(!sensor.on_ground());
    assert_eq!(sensor.ground_detection_entity(), PLAYER);
}

#[test]
fn counted_begins_less_counted_ends_is_what_touches() {
    // Begins counted: A, B, A again after its end (3). Ends counted: A, B (2).
    let contacts = vec![
        Contact::End(A),
        Contact::Begin(A),
        Contact::Begin(A),
        Contact::Begin(B),
        Contact::End(A),
        Contact::End(A),
        Contact::Begin(A),
        Contact::End(B),
    ];
    let mut sensor = GroundSensor::new(PLAYER);
    sensor.apply_all(&contacts);
    assert!(sensor.on_ground());
    assert!(sensor.is_touching(A));
    assert!(!sensor.is_touching(B));
}

#[test]
fn entity_set_insert_remove() {
    let mut set = EntitySet::new();
    assert!(set.is_empty());
    assert!(set.insert(A));
    assert!(!set.insert(A));
    assert!(set.contains(A));
    assert!(!set.contains(B));
    assert!(!set.is_empty());
    assert!(!set.remove(B));
    assert!(set.remove(A));
    assert!(!set.remove(A));
    assert!(set.is_empty());
}

#[test]
fn events_reach_the_sensor_whichever_side_it_is_on() {
    let mut sensors = vec![SensorSlot { entity: FEET, sensor: GroundSensor::new(PLAYER) }];
    let collidables = entity_set(&[A, B, PLAYER]);
    let reached = ground_detection(
        &mut sensors,
        &vec![ContactEvent::Started(A, FEET), ContactEvent::Started(FEET, B)],
        &collidables,
    );
    assert_eq!(reached, vec![0, 0]);
    assert!(sensors[0].sensor.is_touching(A));
    assert!(sensors[0].sensor.is_touching(B));
    ground_detection(&mut sensors, &vec![ContactEvent::Stopped(FEET, A)], &collidables);
    assert!(!sensors[0].sensor.is_touching(A));
    assert!(sensors[0].sensor.on_ground());
    ground_detection(&mut sensors, &vec![ContactEvent::Stopped(B, FEET)], &collidables);
    assert!(!sensors[0].sensor.on_ground());
    assert_eq!(sensors[0].entity, FEET);
    assert_eq!(sensors[0].sensor.ground_detection_entity(), PLAYER);
}

#[test]
fn events_between_others_are_passed_over() {
    let mut sensors = vec![SensorSlot { entity: FEET, sensor: GroundSensor::new(PLAYER) }];
    let collidables = entity_set(&[A, B]);
    let reached = ground_detection(
        &mut sensors,
        &vec![
            // Two collidables: the first is taken as ground, the second is no sensor.
            ContactEvent::Started(A, B),
            // Neither is collidable.
            ContactEvent::Started(FEET, 55),
            ContactEvent::Started(55, FEET),
            // A stop for what never began reaches the sensor and changes nothing.
            ContactEvent::Stopped(A, FEET),
        ],
        &collidables,
    );
    assert_eq!(reached, vec![0]);
    assert!(!sensors[0].sensor.on_ground());
    assert!(!sensors[0].sensor.is_touching(A));
    assert!(!sensors[0].sensor.is_touching(55));
}

#[test]
fn each_sensor_keeps_its_own_contacts() {
    let mut sensors = vec![
        SensorSlot { entity: 2, sensor: GroundSensor::new(1) },
        SensorSlot { entity: 4, sensor: GroundSensor::new(3) },
    ];
    let collidables = entity_set(&[A, B]);
    let reached = ground_detection(
        &mut sensors,
        &vec![
            ContactEvent::Started(A, 2),
            ContactEvent::Started(B, 4),
            ContactEvent::Stopped(A, 4),
            ContactEvent::Stopped(A, 2),
        ],
        &collidables,
    );
    assert_eq!(reached, vec![0, 1, 1, 0]);
    assert!(!sensors[0].sensor.on_ground());
    assert!(sensors[1].sensor.on_ground());
    assert!(sensors[1].sensor.is_touching(B));
    assert_eq!(find_slot(&sensors, 4), Some(1));
    assert_eq!(find_slot(&sensors, 1), None);
}

#[test]
fn flags_follow_their_sensors() {
    let mut sensors = vec![
        SensorSlot { entity: 2, sensor: GroundSensor::new(1) },
        SensorSlot { entity: 4, sensor: GroundSensor::new(3) },
        SensorSlot { entity: 6, sensor: GroundSensor::new(77) },
    ];
    sensors[0].sensor.apply(Contact::Begin(A));
    sensors[2].sensor.apply(Contact::Begin(A));
    let mut detectors = vec![
        DetectorSlot { entity: 3, detection: GroundDetection { on_ground: true } },
        DetectorSlot { entity: 1, detection: GroundDetection { on_ground: false } },
        DetectorSlot { entity: 5, detection: GroundDetection { on_ground: true } },
    ];
    let readings: Vec<GroundReading> = sensors.iter().map(|slot| slot.sensor.reading()).collect();
    assert_eq!(
        readings,
        vec![
            GroundReading { detector: 1, grounded: true },
            GroundReading { detector: 3, grounded: false },
            GroundReading { detector: 77, grounded: true },
        ]
    );
    let set = update_on_ground(&mut detectors, &readings);
    assert_eq!(set, vec![true, true, false]);
    assert_eq!(
        detectors,
        vec![
            DetectorSlot { entity: 3, detection: GroundDetection { on_ground: false } },
            DetectorSlot { entity: 1, detection: GroundDetection { on_ground: true } },
            // No sensor feeds entity 5.
            DetectorSlot { entity: 5, detection: GroundDetection { on_ground: true } },
        ]
    );
    assert_eq!(find_slot(&detectors, 5), Some(2));
    assert_eq!(find_slot(&detectors, 77), None);
}

#[test]
fn an_entity_is_on_ground_while_any_of_its_sensors_touches() {
    let touching = GroundReading { detector: 1, grounded: true };
    let free = GroundReading { detector: 1, grounded: false };
    for readings in [vec![touching, free], vec![free, touching], vec![free, touching, free]] {
        for before in [false, true] {
            let mut detectors =
                vec![DetectorSlot { entity: 1, detection: GroundDetection { on_ground: before } }];
            let set = update_on_ground(&mut detectors, &readings);
            assert!(detectors[0].detection.on_ground);
            assert_eq!(set, vec![true]);
        }
    }
    for before in [false, true] {
        let mut detectors =
            vec![DetectorSlot { entity: 1, detection: GroundDetection { on_ground: before } }];
        let set = update_on_ground(&mut detectors, &vec![free, free]);
        assert!(!detectors[0].detection.on_ground);
        assert_eq!(set, vec![true]);
    }
}

#[test]
fn a_flag_without_a_reading_stays() {
    for before in [false, true] {
        let mut detectors =
            vec![DetectorSlot { entity: 1, detection: GroundDetection { on_ground: before } }];
        let set = update_on_ground(&mut detectors, &vec![GroundReading { detector: 2, grounded: !before }]);
        assert_eq!(detectors[0].detection.on_ground, before);
        assert_eq!(set, vec![false]);
        let set = update_on_ground(&mut detectors, &Vec::new());
        assert_eq!(detectors[0].detection.on_ground, before);
        assert_eq!(set, vec![false]);
    }
}

#[test]
fn two_sensors_of_one_entity_one_emptied() {
    // The entity has two sensors. One touches A; the other has just lost its
    // last contact and is the only one that changed.
    let mut first = GroundSensor::new(PLAYER);
    first.apply(Contact::Begin(A));
    let mut second = GroundSensor::new(PLAYER);
    second.apply(Contact::Begin(B));
    second.apply(Contact::End(B));
    let reports = vec![
        SensorReport { reading: first.reading(), changed: false },
        SensorReport { reading: second.reading(), changed: true },
    ];
    let readings = changed_readings(&reports);
    assert_eq!(readings, vec![first.reading(), second.reading()]);
    let mut detectors =
        vec![DetectorSlot { entity: PLAYER, detection: GroundDetection { on_ground: true } }];
    update_on_ground(&mut detectors, &readings);
    assert!(detectors[0].detection.on_ground);
}

#[test]
fn readings_are_due_for_entities_with_a_changed_sensor() {
    let report = |detector: u64, grounded: bool, changed: bool| SensorReport {
        reading: GroundReading { detector, grounded },
        changed,
    };
    let reports = vec![
        report(1, true, false),
        report(2, false, false),
        report(3, true, true),
        report(1, false, true),
        report(2, true, false),
        report(3, false, false),
    ];
    assert_eq!(
        changed_readings(&reports),
        vec![
            GroundReading { detector: 1, grounded: true },
            GroundReading { detector: 3, grounded: true },
            GroundReading { detector: 1, grounded: false },
            GroundReading { detector: 3, grounded: false },
        ]
    );
    assert_eq!(changed_readings(&vec![report(1, true, false)]), Vec::new());
    assert_eq!(changed_readings(&Vec::new()), Vec::new());
}
