use filaments::color::{Color, Rgb8};
use filaments::nano_id::{NanoId, NANO_ID_LEN};
use filaments::priority::Priority;
use filaments::regions::{Region, TodoRegion};

#[test]
fn color_packs_channels() {
    let c = Color::new(0x12, 0xAB, 0x0F);
    let rgb = c.to_rgb8();
    assert_eq!(rgb, Rgb8 { r: 0x12, g: 0xAB, b: 0x0F });
    assert_eq!(c.to_hex_string(), "#12AB0F");
    assert_eq!(c.debug_string(), "Color(#12AB0F)");
}

#[test]
fn color_round_trips_through_rgb8() {
    let rgb = Rgb8 { r: 255, g: 0, b: 128 };
    let c: Color = Color::from(rgb);
    let back: Rgb8 = Rgb8::from(c);
    assert_eq!(back, rgb);
    assert_eq!(c, Color::new(255, 0, 128));
    assert_eq!(c.to_hex_string(), "#FF0080");
}

#[test]
fn color_black_and_white() {
    assert_eq!(Color::new(0, 0, 0).to_hex_string(), "#000000");
    assert_eq!(Color::new(255, 255, 255).to_hex_string(), "#FFFFFF");
}

#[test]
fn random_color_is_a_color() {
    let c = Color::default();
    let rgb = c.to_rgb8();
    assert_eq!(Color::new(rgb.r, rgb.g, rgb.b), c);
    assert_eq!(c.to_hex_string().len(), 7);
}

#[test]
fn priority_names_round_trip() {
    for p in [Priority::Asap, Priority::High, Priority::Medium, Priority::Low, Priority::Far] {
        assert_eq!(Priority::from_str(p.to_str()).unwrap(), p);
    }
    assert_eq!(Priority::Asap.to_string(), "ASAP");
    assert_eq!(Priority::Far.to_str(), "Far");
}

#[test]
fn priority_rejects_unknown_names() {
    let e = Priority::from_str("asap").unwrap_err();
    assert_eq!(e.bad(), "asap");
    assert_eq!(e.to_string(), "asap is not a valid Priority!");
    assert!(Priority::from_str("").is_err());
}

#[test]
fn priority_default_and_order() {
    assert_eq!(Priority::default(), Priority::Medium);
    assert!(Priority::Asap < Priority::High);
    assert!(Priority::Low < Priority::Far);
    let parsed: Priority = "High".parse().unwrap();
    assert_eq!(parsed, Priority::High);
}

#[test]
fn nano_id_from_any_text() {
    let id = NanoId::from_str("abc-123").unwrap();
    assert_eq!(id.as_str(), "abc-123");
    assert_eq!(id.to_string(), "abc-123");
    let parsed: NanoId = "xyz".parse().unwrap();
    assert!(parsed == NanoId::from_str("xyz").unwrap());
    assert!(parsed != id);
}

#[test]
fn generated_nano_id_shape() {
    let id = NanoId::default();
    assert_eq!(id.as_str().chars().count(), NANO_ID_LEN);
    assert!(id.as_str().chars().all(|c| c.is_ascii_lowercase()));
    let copy = id.clone();
    assert!(copy == id);
}

#[test]
fn regions_listed_and_named() {
    let names: Vec<&str> = Region::all().iter().map(|r| r.name()).collect();
    assert_eq!(names, vec!["Home", "Zk"]);
    assert_eq!(Region::default(), Region::Home);
    let todo: Vec<&str> = TodoRegion::all().iter().map(|r| r.name()).collect();
    assert_eq!(todo, vec!["Inspector", "TaskList", "Explorer"]);
    assert_eq!(TodoRegion::default(), TodoRegion::Explorer);
    assert_eq!(TodoRegion::Explorer.active_lists(), (true, false));
    assert_eq!(TodoRegion::TaskList.active_lists(), (false, true));
    assert_eq!(TodoRegion::Inspector.active_lists(), (false, false));
}
