use adb_studio::settings::{
    default_comment_background_color, default_label_definitions, default_shortcut_trash,
    default_sort_order, default_tag_definitions,
    window_position_visible, DisplayArea, available_tag_rows, label_row_fields, tag_rows, loop_mode_from_number, loop_mode_from_switch, parse_color, parse_hex_color, Definitions,
    LabelDefinition, TagDefinition,
};

#[test]
fn loop_mode_accepts_legacy_booleans_and_clamps_numbers() {
    let enabled = loop_mode_from_switch(true);
    let clamped = loop_mode_from_number(99);
    assert_eq!(enabled, 1);
    assert_eq!(clamped, 2);
}

#[test]
fn loop_mode_keeps_valid_numbers_and_raises_negative_ones() {
    assert_eq!(loop_mode_from_number(1), 1);
    assert_eq!(loop_mode_from_number(-3), 0);
    assert_eq!(loop_mode_from_switch(false), 0);
}

#[test]
fn hex_colors_accept_hash_prefix_and_reject_invalid_values() {
    assert_eq!(parse_hex_color("#1234ab"), Some((0x12, 0x34, 0xab)));
    assert_eq!(parse_hex_color("1234ab"), Some((0x12, 0x34, 0xab)));
    assert_eq!(parse_hex_color("#12345"), None);
    assert_eq!(parse_hex_color("#gggggg"), None);
}

#[test]
fn hex_pairs_read_like_from_str_radix() {
    assert_eq!(parse_hex_color("+f0A+1"), Some((0x0f, 0x0a, 0x01)));
    assert_eq!(parse_hex_color("##123456"), None);
    assert_eq!(parse_hex_color("ééé"), None);
}

#[test]
fn parse_color_returns_fallback_for_invalid_values() {
    let fallback = (1, 2, 3);
    assert_eq!(parse_color("not-a-color", fallback), fallback);
}

#[test]
fn created_definition_ids_are_monotonic() {
    let mut settings = Definitions::defaults();
    let first_label = settings.create_label("Custom".into(), "#123456".into());
    let second_label = settings.create_label("Another".into(), "#654321".into());
    let first_tag = settings.create_tag("Ambient".into());

    assert_eq!(first_label, 7);
    assert_eq!(second_label, 8);
    assert_eq!(first_tag, 7);
    settings.label_definitions.retain(|label| label.id != first_label);
    assert_eq!(settings.create_label("Recreated".into(), "#abcdef".into()), 9);
}

#[test]
fn next_ids_are_repaired_without_recycling_existing_ids() {
    let mut settings = Definitions::defaults();
    settings.label_definitions =
        vec![LabelDefinition { id: 42, name: "Saved".into(), color: "#123456".into() }];
    settings.tag_definitions = vec![TagDefinition { id: 19, name: "Saved tag".into() }];
    settings.normalize_next_ids();

    assert_eq!(settings.create_label("New".into(), "#abcdef".into()), 43);
    assert_eq!(settings.create_tag("New tag".into()), 20);
}

#[test]
fn default_definitions_are_numbered_from_one() {
    let settings = Definitions::defaults();
    assert_eq!(settings.label_definitions.len(), 6);
    assert_eq!(settings.tag_definitions.len(), 6);
    assert_eq!(settings.label_definitions[0].name, "Base idea");
    assert_eq!(settings.tag_definitions[5].name, "Choir");
    assert_eq!(settings.next_label_id, 7);
    assert_eq!(settings.next_tag_id, 7);
}

#[test]
fn ids_start_at_one_and_saturate() {
    let mut settings = Definitions::defaults();
    settings.next_label_id = 0;
    assert_eq!(settings.create_label("A".into(), "#000000".into()), 1);
    settings.next_tag_id = u64::MAX;
    assert_eq!(settings.create_tag("B".into()), u64::MAX);
    assert_eq!(settings.next_tag_id, u64::MAX);
}

fn tag(id: u64, name: &str) -> TagDefinition {
    TagDefinition { id, name: name.to_string() }
}

#[test]
fn label_rows_show_known_unknown_and_missing_labels() {
    let labels = vec![LabelDefinition { id: 3, name: "Bad".to_string(), color: "#f3b1b1".to_string() }];
    assert_eq!(label_row_fields(None, &labels), (-1, String::new(), (229, 138, 77), false));
    assert_eq!(label_row_fields(Some(3), &labels), (3, "Bad".to_string(), (0xf3, 0xb1, 0xb1), true));
    assert_eq!(
        label_row_fields(Some(9), &labels),
        (9, "Unknown label".to_string(), (229, 138, 77), false)
    );
    let odd = vec![LabelDefinition { id: 1, name: "Odd".to_string(), color: "blue".to_string() }];
    assert_eq!(label_row_fields(Some(1), &odd).2, (229, 138, 77));
}

#[test]
fn tag_rows_follow_the_file_and_available_rows_the_definitions() {
    let tags = vec![tag(1, "Funk"), tag(2, "Techno"), tag(3, "Jazz")];
    assert_eq!(
        tag_rows(&vec![3, 7], &tags),
        vec![(3, "Jazz".to_string()), (7, "Unknown tag".to_string())]
    );
    assert_eq!(
        available_tag_rows(&vec![3, 7], &tags),
        vec![(1, "Funk".to_string()), (2, "Techno".to_string())]
    );
}

#[test]
fn saved_window_position_must_lie_on_a_screen() {
    let screens = vec![
        DisplayArea { x: 0, y: 0, width: 1920, height: 1080 },
        DisplayArea { x: -1280, y: 0, width: 1280, height: 1024 },
    ];
    assert!(window_position_visible(100, 100, &screens));
    assert!(window_position_visible(-1280, 1023, &screens));
    assert!(!window_position_visible(1920, 10, &screens));
    assert!(!window_position_visible(-1281, 10, &screens));
    assert!(!window_position_visible(0, 0, &Vec::new()));
}

#[test]
fn defaults_of_the_settings_file() {
    assert_eq!(default_sort_order(), 3);
    assert_eq!(default_shortcut_trash(), 9);
    assert_eq!(default_comment_background_color(), "#000000");
    let labels = default_label_definitions();
    assert_eq!(labels.len(), 6);
    assert_eq!(labels[3].name, "Use as FX material");
    let tags = default_tag_definitions();
    assert_eq!(tags[5].id, 6);
    assert_eq!(tags[5].name, "Choir");
}
