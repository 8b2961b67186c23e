use bedwars::aabb::Aabb;
use bedwars::aabb::Vec3;
use bedwars::bedwars_config::ConfigVec3;
use bedwars::bedwars_config::ShopPrice;
use bedwars::colors::TeamColor;
use bedwars::commands::BedwarsCommand;
use bedwars::direction::Direction;
use bedwars::enchantments::Enchantment;
use bedwars::lobby::LobbyPlayerState;
use bedwars::match_state::TeamState;
use bedwars::num::div_ceil;
use bedwars::num::div_floor;
use bedwars::num::isqrt;
use bedwars::shop::ShopState;

#[test]
fn team_color_hex_values() {
    assert_eq!(TeamColor::White.hex(), 0xF9FFFE);
    assert_eq!(TeamColor::Red.hex(), 0xB02E26);
    assert_eq!(TeamColor::LightBlue.hex(), 0x3AB3DA);
    assert_eq!(TeamColor::Black.hex(), 0x1D1D21);
}

#[test]
fn team_color_text_codes() {
    assert_eq!(TeamColor::White.text_color(), "\u{a7}f");
    assert_eq!(TeamColor::Red.text_color(), "\u{a7}c");
    assert_eq!(TeamColor::Green.text_color(), "\u{a7}2");
    assert_eq!(TeamColor::LightBlue.name(), "light_blue");
    assert_eq!(TeamColor::Lime.name(), "lime");
}

#[test]
fn enchantment_identifiers_parse() {
    assert_eq!(Enchantment::from_str("minecraft:sharpness"), Some(Enchantment::Sharpness));
    assert_eq!(Enchantment::from_str("minecraft:knockback"), Some(Enchantment::Knockback));
    assert_eq!(Enchantment::from_str("minecraft:protection"), Some(Enchantment::Protection));
    assert_eq!(Enchantment::from_str("minecraft:power"), Some(Enchantment::Power));
    assert_eq!(Enchantment::from_str("minecraft:punch"), Some(Enchantment::Punch));
    assert_eq!(Enchantment::from_str("minecraft:infinity"), Some(Enchantment::Infinity));
    assert_eq!(Enchantment::from_str("minecraft:fire_aspect"), Some(Enchantment::FireAspect));
    assert_eq!(Enchantment::from_str("minecraft:flame"), Some(Enchantment::Flame));
    assert_eq!(Enchantment::from_str("minecraft:mending"), None);
    assert_eq!(Enchantment::from_str("sharpness"), None);
    assert_eq!(Enchantment::from_str(""), None);
}

#[test]
fn team_color_names_round_trip() {
    let colors = [
        TeamColor::White,
        TeamColor::Orange,
        TeamColor::Magenta,
        TeamColor::LightBlue,
        TeamColor::Yellow,
        TeamColor::Lime,
        TeamColor::Pink,
        TeamColor::Gray,
        TeamColor::LightGray,
        TeamColor::Cyan,
        TeamColor::Purple,
        TeamColor::Blue,
        TeamColor::Brown,
        TeamColor::Green,
        TeamColor::Red,
        TeamColor::Black,
    ];
    for c in colors {
        assert_eq!(TeamColor::from_name(c.name()), Some(c));
    }
    assert_eq!(TeamColor::from_name("chartreuse"), None);
    assert_eq!(TeamColor::from_name(""), None);
}

#[test]
fn config_vec3_basics() {
    let v = ConfigVec3::new(1, -2, 3);
    assert_eq!((v.x, v.y, v.z), (1, -2, 3));
    assert_eq!(ConfigVec3::up(), ConfigVec3::new(0, 1, 0));
    let w = v.add_to(&ConfigVec3::up());
    assert_eq!(w, ConfigVec3::new(1, -1, 3));
}

#[test]
fn shop_price_and_states() {
    let p = ShopPrice::new(String::from("iron_ingot"), 4);
    assert_eq!(p.item_id, "iron_ingot");
    assert_eq!(p.stack_size, 4);

    let s = ShopState::new();
    assert!(s.selected_category.is_none());

    let l = LobbyPlayerState::new();
    assert_eq!(l.without_team, 0);
    assert!(l.players.is_empty());

    let mut t = TeamState::new();
    assert!(!t.is_eliminated());
    t.bed_destroyed = true;
    assert!(t.is_eliminated());
    t.players_alive.push(String::from("ada"));
    assert!(!t.is_eliminated());

    let c = BedwarsCommand::TeamJoin { team_name: String::from("red") };
    match c {
        BedwarsCommand::TeamJoin { team_name } => assert_eq!(team_name, "red"),
    }
}

#[test]
fn direction_round_trip() {
    let dirs = [
        Direction::Down,
        Direction::Up,
        Direction::North,
        Direction::South,
        Direction::West,
        Direction::East,
    ];
    for (i, d) in dirs.iter().enumerate() {
        assert_eq!(d.as_u8(), i as u8);
        assert_eq!(Direction::from_u8(i as u8), *d);
    }
}

#[test]
fn aabb_geometry() {
    let a = Aabb::new(Vec3::new(1000, 0, -500), Vec3::new(0, 2000, 500));
    // Corners are normalized componentwise.
    assert_eq!(a.min, Vec3::new(0, 0, -500));
    assert_eq!(a.max, Vec3::new(1000, 2000, 500));
    assert_eq!(a.width_x(), 1000);
    assert_eq!(a.height(), 2000);
    assert_eq!(a.width_z(), 1000);
    assert_eq!(a.center(), Vec3::new(500, 1000, 0));

    let moved = a.translate(Vec3::new(10, 20, 30));
    assert_eq!(moved.min, Vec3::new(10, 20, -470));
    assert_eq!(moved.max, Vec3::new(1010, 2020, 530));
}

#[test]
fn translate_to_is_idempotent() {
    // Re-anchoring twice to the same position gives a bit-identical box.
    let a = Aabb::new(Vec3::new(123, 456, 789), Vec3::new(1123, 1456, 1789));
    let p = Vec3::new(-37, 99, 12345);
    let once = a.translate_to(p);
    let twice = once.translate_to(p);
    assert_eq!(once, twice);
    assert_eq!(once.min, p);
    assert_eq!(once.max, Vec3::new(-37 + 1000, 99 + 1000, 12345 + 1000));
}

#[test]
fn intersects_counts_touching_faces() {
    let a = Aabb::new(Vec3::new(0, 0, 0), Vec3::new(1000, 1000, 1000));
    let touching = Aabb::new(Vec3::new(1000, 0, 0), Vec3::new(2000, 1000, 1000));
    let apart = Aabb::new(Vec3::new(1001, 0, 0), Vec3::new(2000, 1000, 1000));
    assert!(a.intersects(&touching));
    assert!(!a.intersects(&apart));
}

#[test]
fn projected_point_direction_picks_dominant_axis() {
    let a = Aabb::new(Vec3::new(0, 0, 0), Vec3::new(1000, 1000, 1000));
    assert_eq!(a.projected_point_direction(Vec3::new(5000, 500, 500)), Direction::East);
    assert_eq!(a.projected_point_direction(Vec3::new(-5000, 500, 500)), Direction::West);
    assert_eq!(a.projected_point_direction(Vec3::new(500, 5000, 500)), Direction::Up);
    assert_eq!(a.projected_point_direction(Vec3::new(500, -5000, 500)), Direction::Down);
    assert_eq!(a.projected_point_direction(Vec3::new(500, 500, 5000)), Direction::South);
    assert_eq!(a.projected_point_direction(Vec3::new(500, 500, -5000)), Direction::North);
}

#[test]
fn integer_helpers() {
    assert_eq!(div_floor(-1, 1000), -1);
    assert_eq!(div_floor(-1000, 1000), -1);
    assert_eq!(div_floor(999, 1000), 0);
    assert_eq!(div_ceil(1, 1000), 1);
    assert_eq!(div_ceil(1000, 1000), 1);
    assert_eq!(div_ceil(-1, 1000), 0);
    assert_eq!(isqrt(0), 0);
    assert_eq!(isqrt(24), 4);
    assert_eq!(isqrt(25), 5);
    assert_eq!(isqrt(u64::MAX), 0xffff_ffff);
}
