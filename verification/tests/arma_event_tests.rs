use potato_plant_mission_encoder::arma_event::ArmaEvent;
use potato_plant_mission_encoder::arma_event::Type;

#[test]
fn ensure_event_converts_to_bytes() {
    let test_second: u64 = 457853;
    let test_type = Type::Custom;

    let event = ArmaEvent(test_second, test_type);

    let bytes = event.to_bytes_le();

    let test_second_bytes = test_second.to_le_bytes();
    let test_type_bytes = test_type.ordinal().to_le_bytes();
    assert_eq!(
        bytes,
        vec![
            test_second_bytes[0],
            test_second_bytes[1],
            test_second_bytes[2],
            test_second_bytes[3],
            test_second_bytes[4],
            test_second_bytes[5],
            test_second_bytes[6],
            test_second_bytes[7],
            test_type_bytes[0]
        ]
    );
}

#[test]
fn custom_event_has_documented_record() {
    let event = ArmaEvent(457853, Type::Custom);
    let bytes = event.to_bytes_le();
    // 457853 = 0x06fc7d little-endian over eight bytes, then ordinal 8.
    assert_eq!(bytes, vec![0x7d, 0xfc, 0x06, 0, 0, 0, 0, 0, 8]);
}

#[test]
fn ordinals_follow_declaration_order() {
    let kinds = [
        Type::ObjectCreated,
        Type::ObjectKilled,
        Type::Fired,
        Type::MarkerCreated,
        Type::MarkerDestroyed,
        Type::MarkerUpdated,
        Type::ObjectGetIn,
        Type::ObjectGetOut,
        Type::Custom,
        Type::MissionStart,
        Type::MissionEnd,
    ];
    for (i, kind) in kinds.iter().enumerate() {
        assert_eq!(kind.ordinal() as usize, i);
    }
}
