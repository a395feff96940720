use potato_plant_mission_encoder::arma_event::ArmaEvent;
use potato_plant_mission_encoder::arma_event::Type;
use potato_plant_mission_encoder::replay_blob::ReplayBlob;

#[test]
fn empty_container_serializes_to_49_header_bytes() {
    let blob = ReplayBlob::new();
    let bytes = blob.serialize();
    assert_eq!(bytes.len(), 49);
    assert_eq!(bytes[0], 1);
    assert_eq!(&bytes[1..17], &blob.replay_uuid());
    assert_eq!(&bytes[17..33], &blob.mission_uuid());
    assert_eq!(&bytes[33..49], &blob.history_uuid());
}

#[test]
fn appended_events_add_nine_bytes_each_in_order() {
    let mut blob = ReplayBlob::new();
    let header = blob.serialize();
    let events = [
        ArmaEvent(0, Type::MissionStart),
        ArmaEvent(457853, Type::Custom),
        ArmaEvent(u64::MAX, Type::MissionEnd),
    ];
    for event in events.iter() {
        blob.append(*event);
    }
    assert_eq!(blob.event_count(), 3);
    let bytes = blob.serialize();
    assert_eq!(bytes.len(), 49 + 9 * 3);
    assert_eq!(&bytes[..49], &header[..]);
    for (i, event) in events.iter().enumerate() {
        assert_eq!(&bytes[49 + 9 * i..49 + 9 * (i + 1)], &event.to_bytes_le()[..]);
    }
}

#[test]
fn identifiers_do_not_change_after_creation() {
    let mut blob = ReplayBlob::new();
    let replay = blob.replay_uuid();
    let mission = blob.mission_uuid();
    let history = blob.history_uuid();
    blob.append(ArmaEvent(7, Type::Fired));
    assert_eq!(blob.replay_uuid(), replay);
    assert_eq!(blob.mission_uuid(), mission);
    assert_eq!(blob.history_uuid(), history);
}
