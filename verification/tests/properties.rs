use world::actors::SfxId;
use world::properties::{parse_i64, tile_properties, Property};

#[test]
fn whole_numbers_read_as_std_reads_them() {
    let cases = [
        "12",
        "-5",
        "+7",
        "",
        "-",
        "+",
        "1a",
        " 1",
        "00012",
        "-0",
        "+-1",
        "-+1",
        "9223372036854775807",
        "9223372036854775808",
        "-9223372036854775808",
        "-9223372036854775809",
        "123456789012345678901234567890",
    ];
    for case in cases {
        assert_eq!(parse_i64(case), case.parse::<i64>().ok(), "{case:?}");
    }
    assert_eq!(parse_i64("-9223372036854775808"), Some(i64::MIN));
    assert_eq!(parse_i64("+7"), Some(7));
}

#[test]
fn tile_properties_read_flags_groups_and_cues() {
    assert_eq!(
        tile_properties(
            Some(Property::Bool(true)),
            Some(Property::Int(4)),
            Some(Property::Text("grass".to_string())),
        ),
        (Some(true), Some(4), Some(SfxId("grass".to_string())))
    );
    assert_eq!(
        tile_properties(
            Some(Property::Text("true".to_string())),
            Some(Property::Text("-12".to_string())),
            Some(Property::Bool(true)),
        ),
        (None, Some(-12), None)
    );
    assert_eq!(
        tile_properties(None, Some(Property::Text("two".to_string())), Some(Property::Other)),
        (None, None, None)
    );
}
