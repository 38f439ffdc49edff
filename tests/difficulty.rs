use minesweeper_rs::config::{parse_flag, Config, Difficulty, DifficultyType, GraphicsType, HighScore};

#[test]
fn custom_difficulty_clamps_small_grid_and_many_mines() {
    let d = Difficulty::new(5, 5, 999);
    assert_eq!(d.dimensions(), (9, 9));
    assert_eq!(d.num_mines(), 64);
    assert_eq!(d.difficulty_type(), DifficultyType::Custom);
}

#[test]
fn custom_difficulty_clamps_large_grid_and_few_mines() {
    let d = Difficulty::new(100, 100, 0);
    assert_eq!(d.dimensions(), (30, 24));
    assert_eq!(d.num_mines(), 10);
}

#[test]
fn custom_difficulty_keeps_values_in_range() {
    let d = Difficulty::new(20, 12, 50);
    assert_eq!(d.dimensions(), (20, 12));
    assert_eq!(d.num_mines(), 50);
}

#[test]
fn custom_difficulty_mine_cap_follows_clamped_dimensions() {
    let d = Difficulty::new(30, 24, 10_000);
    assert_eq!(d.num_mines(), 23 * 29);
}

#[test]
fn presets_have_documented_sizes() {
    let b = Difficulty::beginner();
    assert_eq!(b.dimensions(), (9, 9));
    assert_eq!(b.num_mines(), 10);
    let i = Difficulty::intermediate();
    assert_eq!(i.dimensions(), (16, 16));
    assert_eq!(i.num_mines(), 40);
    let e = Difficulty::expert();
    assert_eq!(e.dimensions(), (30, 16));
    assert_eq!(e.num_mines(), 99);
    assert_eq!(e.difficulty_type(), DifficultyType::Expert);
    assert_eq!(Difficulty::default(), b);
}

#[test]
fn preset_lookup_refuses_custom() {
    assert_eq!(Difficulty::preset(DifficultyType::Intermediate), Some(Difficulty::intermediate()));
    assert_eq!(Difficulty::preset(DifficultyType::Custom), None);
}

#[test]
fn setting_names() {
    assert_eq!(DifficultyType::Beginner.name(), "beginner");
    assert_eq!(DifficultyType::Custom.name(), "custom");
    assert_eq!(GraphicsType::OpenGL.name(), "opengl");
    assert_eq!(GraphicsType::Direct3D.name(), "direct3d");
}

#[test]
fn high_score_time_is_capped() {
    let h = HighScore::new(String::from("Ada"), 5000);
    assert_eq!(h.time, 999);
    assert_eq!(h.name, "Ada");
    let h = HighScore::new(String::from("Bo"), 42);
    assert_eq!(h.time, 42);
    let d = HighScore::default();
    assert_eq!(d.name, "Anonymous");
    assert_eq!(d.time, 999);
}

#[test]
fn default_config() {
    let c = Config::default();
    assert_eq!(c.graphics_type, GraphicsType::OpenGL);
    assert!(!c.legacy_rng);
    assert_eq!(c.difficulty, Difficulty::beginner());
    assert_eq!((c.window_position.x, c.window_position.y), (80, 80));
    assert!(!c.sound_enabled);
    assert!(c.marks_enabled);
    assert!(c.colour_enabled);
    assert_eq!(c.expert_score.name, "Anonymous");
}

#[test]
fn stored_flags_parse() {
    for v in ["true", "yes", "y"] {
        assert_eq!(parse_flag(v), Some(true));
    }
    for v in ["false", "no", "n"] {
        assert_eq!(parse_flag(v), Some(false));
    }
    assert_eq!(parse_flag("maybe"), None);
    assert_eq!(parse_flag(""), None);
    assert_eq!(parse_flag("True"), None);
}

#[test]
fn stored_names_parse_back() {
    for g in [GraphicsType::OpenGL, GraphicsType::Direct3D, GraphicsType::Vulkan, GraphicsType::Metal] {
        assert_eq!(GraphicsType::from_name(g.name()), Some(g));
    }
    assert_eq!(GraphicsType::from_name("directx"), Some(GraphicsType::Direct3D));
    assert_eq!(GraphicsType::from_name("glide"), None);
    for d in [
        DifficultyType::Beginner,
        DifficultyType::Intermediate,
        DifficultyType::Expert,
        DifficultyType::Custom,
    ] {
        assert_eq!(DifficultyType::from_name(d.name()), d);
    }
    assert_eq!(DifficultyType::from_name("whatever"), DifficultyType::Custom);
}
