use maprando::customize::{
    apply_controller_config, area_theme_name, get_button_list_mask, get_button_mask, parse_controller_button, same_text, AllocationError,
    Allocator, ControllerButton, ControllerConfig, CustomizeSettings, DoorTheme, FlashingSetting,
    ItemDotChange, MusicSettings, PaletteTheme, ShakingSetting, TileTheme, UnexpectedButton,
};

#[test]
fn allocator_takes_from_the_first_block_with_room() {
    let mut allocator = Allocator::new(vec![(0x100, 0x110), (0x200, 0x280)]);
    assert_eq!(allocator.allocate(0x8), Ok(0x100));
    assert_eq!(allocator.allocate(0x8), Ok(0x108));
    // The first block is full now.
    assert_eq!(allocator.allocate(0x1), Ok(0x200));
    assert_eq!(allocator.allocate(0x7f), Ok(0x201));
    assert_eq!(allocator.allocate(0x1), Err(AllocationError { size: 1 }));
    assert_eq!(allocator.allocate(0), Ok(0x110));
}

#[test]
fn allocator_skips_blocks_that_are_too_small() {
    let mut allocator = Allocator::new(vec![(0, 4), (10, 30), (100, 200)]);
    assert_eq!(allocator.allocate(50), Ok(100));
    assert_eq!(allocator.allocate(20), Ok(10));
    assert_eq!(allocator.allocate(4), Ok(0));
    assert_eq!(allocator.allocate(51), Err(AllocationError { size: 51 }));
    assert_eq!(allocator.allocate(50), Ok(150));
}

#[test]
fn allocator_without_blocks_has_no_room() {
    let mut allocator = Allocator::new(vec![]);
    assert_eq!(allocator.allocate(1), Err(AllocationError { size: 1 }));
    assert_eq!(allocator.get_stats(), (0, 0, 0));
}

#[test]
fn failed_allocation_changes_nothing() {
    let mut allocator = Allocator::new(vec![(0, 10)]);
    assert_eq!(allocator.allocate(4), Ok(0));
    let before = allocator.get_stats();
    assert_eq!(allocator.allocate(7), Err(AllocationError { size: 7 }));
    assert_eq!(allocator.get_stats(), before);
    assert_eq!(allocator.allocate(6), Ok(4));
}

#[test]
fn stats_count_untouched_free_and_all() {
    let mut allocator = Allocator::new(vec![(0x100, 0x110), (0x200, 0x280), (0x300, 0x300)]);
    assert_eq!(allocator.get_stats(), (0x90, 0x90, 0x90));
    assert_eq!(allocator.allocate(0x4), Ok(0x100));
    // The first block is touched: it no longer counts as untouched, its rest is free.
    assert_eq!(allocator.get_stats(), (0x80, 0x8c, 0x90));
    assert_eq!(allocator.allocate(0x80), Ok(0x200));
    assert_eq!(allocator.get_stats(), (0, 0xc, 0x90));
}

#[test]
fn button_names() {
    assert_eq!(parse_controller_button("Left"), Ok(ControllerButton::Left));
    assert_eq!(parse_controller_button("Right"), Ok(ControllerButton::Right));
    assert_eq!(parse_controller_button("Up"), Ok(ControllerButton::Up));
    assert_eq!(parse_controller_button("Down"), Ok(ControllerButton::Down));
    assert_eq!(parse_controller_button("X"), Ok(ControllerButton::X));
    assert_eq!(parse_controller_button("Y"), Ok(ControllerButton::Y));
    assert_eq!(parse_controller_button("A"), Ok(ControllerButton::A));
    assert_eq!(parse_controller_button("B"), Ok(ControllerButton::B));
    assert_eq!(parse_controller_button("Select"), Ok(ControllerButton::Select));
    assert_eq!(parse_controller_button("L"), Ok(ControllerButton::L));
    assert_eq!(parse_controller_button("R"), Ok(ControllerButton::R));
}

#[test]
fn names_of_no_button() {
    for name in ["", "left", "Start", "Default", "LR", "Selec", "Select ", "Ä"] {
        assert_eq!(
            parse_controller_button(name),
            Err(UnexpectedButton { name: name.to_string() })
        );
    }
}

#[test]
fn same_text_compares_contents() {
    assert!(same_text("", ""));
    assert!(same_text("Select", "Select"));
    assert!(!same_text("Select", "Selecu"));
    assert!(!same_text("Select", "Selec"));
    assert!(!same_text("a", "ä"));
    assert!(same_text("äö", "äö"));
}

#[test]
fn button_masks() {
    let d = ControllerButton::Default;
    assert_eq!(get_button_mask(ControllerButton::Left, d), 0x0200);
    assert_eq!(get_button_mask(ControllerButton::Right, d), 0x0100);
    assert_eq!(get_button_mask(ControllerButton::Up, d), 0x0800);
    assert_eq!(get_button_mask(ControllerButton::Down, d), 0x0400);
    assert_eq!(get_button_mask(ControllerButton::X, d), 0x0040);
    assert_eq!(get_button_mask(ControllerButton::Y, d), 0x4000);
    assert_eq!(get_button_mask(ControllerButton::A, d), 0x0080);
    assert_eq!(get_button_mask(ControllerButton::B, d), 0x8000);
    assert_eq!(get_button_mask(ControllerButton::L, d), 0x0020);
    assert_eq!(get_button_mask(ControllerButton::R, d), 0x0010);
    assert_eq!(get_button_mask(ControllerButton::Select, d), 0x2000);
    assert_eq!(get_button_mask(ControllerButton::Start, d), 0x1000);
}

#[test]
fn default_button_takes_the_mask_of_its_stand_in() {
    assert_eq!(get_button_mask(ControllerButton::Default, ControllerButton::A), 0x0080);
    assert_eq!(get_button_mask(ControllerButton::Default, ControllerButton::Select), 0x2000);
    assert_eq!(get_button_mask(ControllerButton::X, ControllerButton::A), 0x0040);
}

#[test]
fn button_list_masks() {
    assert_eq!(get_button_list_mask(&[]), 0xFFFF);
    assert_eq!(get_button_list_mask(&[ControllerButton::L]), 0x0020);
    assert_eq!(
        get_button_list_mask(&[ControllerButton::L, ControllerButton::R, ControllerButton::X]),
        0x0070
    );
    assert_eq!(
        get_button_list_mask(&[ControllerButton::Start, ControllerButton::Start]),
        0x1000
    );
}

#[test]
fn default_settings() {
    let settings = CustomizeSettings::default();
    assert_eq!(settings.samus_sprite, Some("samus_vanilla".to_string()));
    assert_eq!(settings.etank_color, None);
    assert_eq!(settings.item_dot_change, ItemDotChange::Fade);
    assert!(settings.transition_letters);
    assert!(settings.reserve_hud_style);
    assert!(settings.vanilla_screw_attack_animation);
    assert!(settings.room_names);
    assert!(matches!(settings.palette_theme, PaletteTheme::Vanilla));
    assert_eq!(settings.tile_theme, TileTheme::AreaThemed);
    assert!(matches!(settings.door_theme, DoorTheme::Vanilla));
    assert!(matches!(settings.music, MusicSettings::AreaThemed));
    assert!(!settings.disable_beeping);
    assert!(matches!(settings.shaking, ShakingSetting::Vanilla));
    assert!(matches!(settings.flashing, FlashingSetting::Vanilla));
    assert_eq!(settings.controller_config.jump, ControllerButton::Default);
    assert!(!settings.controller_config.moonwalk);
}

#[test]
fn default_controller_config() {
    let config = ControllerConfig::default();
    assert_eq!(config.shot, ControllerButton::Default);
    assert_eq!(config.jump, ControllerButton::Default);
    assert_eq!(config.dash, ControllerButton::Default);
    assert_eq!(config.item_select, ControllerButton::Default);
    assert_eq!(config.item_cancel, ControllerButton::Default);
    assert_eq!(config.angle_up, ControllerButton::Default);
    assert_eq!(config.angle_down, ControllerButton::Default);
    assert!(config.spin_lock_buttons.is_empty());
    assert!(config.quick_reload_buttons.is_empty());
    assert!(!config.moonwalk);
    assert_eq!(ControllerButton::default(), ControllerButton::Default);
    assert!(matches!(DoorTheme::default(), DoorTheme::Vanilla));
}

#[test]
fn controller_words_for_the_default_config() {
    let words = apply_controller_config(&ControllerConfig::default());
    assert_eq!(
        words,
        vec![
            (0x81B325, 0x0080),
            (0x81B32B, 0x8000),
            (0x81B331, 0x0040),
            (0x81B337, 0x4000),
            (0x81B33D, 0x2000),
            (0x81B343, 0x0010),
            (0x81B349, 0x0020),
            (0x82FE7C, 0xFFFF),
            (0x82FE7E, 0xFFFF),
        ]
    );
}

#[test]
fn controller_words_for_a_chosen_config() {
    let config = ControllerConfig {
        shot: ControllerButton::Y,
        jump: ControllerButton::B,
        dash: ControllerButton::Default,
        item_select: ControllerButton::Default,
        item_cancel: ControllerButton::X,
        angle_up: ControllerButton::L,
        angle_down: ControllerButton::R,
        spin_lock_buttons: vec![ControllerButton::X, ControllerButton::L, ControllerButton::R],
        quick_reload_buttons: vec![ControllerButton::Select, ControllerButton::Start],
        moonwalk: true,
    };
    assert_eq!(
        apply_controller_config(&config),
        vec![
            (0x81B325, 0x8000),
            (0x81B32B, 0x8000),
            (0x81B331, 0x4000),
            (0x81B337, 0x0040),
            (0x81B33D, 0x2000),
            (0x81B343, 0x0020),
            (0x81B349, 0x0010),
            (0x82FE7C, 0x0070),
            (0x82FE7E, 0x3000),
        ]
    );
}

#[test]
fn area_theme_names() {
    assert_eq!(area_theme_name(0, 0, 0), "OuterCrateria");
    assert_eq!(area_theme_name(0, 0, 1), "OuterCrateria");
    assert_eq!(area_theme_name(0, 1, 0), "InnerCrateria");
    assert_eq!(area_theme_name(0, 1, 1), "BlueBrinstar");
    assert_eq!(area_theme_name(1, 0, 0), "GreenBrinstar");
    assert_eq!(area_theme_name(1, 0, 1), "PinkBrinstar");
    assert_eq!(area_theme_name(1, 1, 0), "RedBrinstar");
    assert_eq!(area_theme_name(1, 1, 7), "RedBrinstar");
    assert_eq!(area_theme_name(2, 0, 0), "UpperNorfair");
    assert_eq!(area_theme_name(2, 1, 0), "LowerNorfair");
    assert_eq!(area_theme_name(3, 0, 0), "WreckedShip");
    assert_eq!(area_theme_name(3, 9, 9), "WreckedShip");
    assert_eq!(area_theme_name(4, 0, 0), "WestMaridia");
    assert_eq!(area_theme_name(4, 1, 0), "YellowMaridia");
    assert_eq!(area_theme_name(5, 0, 0), "MetroidHabitat");
    assert_eq!(area_theme_name(5, 1, 0), "MechaTourian");
}
