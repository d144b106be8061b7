use dynisland_layout::module_config::{ClockConfig, ExampleConfig, MenuHeightMode, SystrayConfig};
use dynisland_layout::status_notifier::icon::IconType;
use dynisland_layout::status_notifier::item::{Category, Status, StatusNotifierItemParseError};
use dynisland_layout::status_notifier::layout::{LayoutParseError, ToggleProperty, TypeProperty};
use dynisland_layout::status_notifier::menu;
use dynisland_layout::text::strip_underscore_from_label;
use dynisland_layout::visualizer::{format_rgb_color, get_gradient_css, parse_input, remap_num};

#[test]
fn rgb_color_text() {
    assert_eq!(format_rgb_color([255, 0, 17]), "rgb(255, 0, 17)");
    assert_eq!(format_rgb_color([9, 10, 100]), "rgb(9, 10, 100)");
}

#[test]
fn remap_values() {
    assert_eq!(remap_num(5, 0, 10, 0, 100), 50);
    assert_eq!(remap_num(20, 0, 10, 0, 100), 100);
    assert_eq!(remap_num(0, 5, 10, 10, 20), 10);
    assert_eq!(remap_num(255, 0, 255, 0, 255), 255);
    assert_eq!(remap_num(7, 0, 3, 0, 2), 2);
    assert_eq!(remap_num(1, 0, 3, 0, 2), 0);
}

#[test]
fn parse_input_lines() {
    assert_eq!(parse_input("1,2,3,4,5,6\n"), [1, 2, 3, 4, 5, 6]);
    assert_eq!(parse_input(" 10, 20 ,30,40,50,+60 "), [10, 20, 30, 40, 50, 60]);
    assert_eq!(parse_input("1,2,x,4,256,6"), [1, 2, 0, 4, 0, 6]);
    assert_eq!(parse_input("1,2,3"), [0; 6]);
    assert_eq!(parse_input(""), [0; 6]);
    assert_eq!(parse_input("1,2,3,4,5,6,7"), [0; 6]);
    assert_eq!(parse_input(",,,,,"), [0; 6]);
    assert_eq!(parse_input("001,2,3,4,5,-6"), [1, 2, 3, 4, 5, 0]);
}

#[test]
fn gradient_css_text() {
    let mut m = [[[0u8; 3]; 6]; 3];
    for (row, r) in m.iter_mut().enumerate() {
        for (col, c) in r.iter_mut().enumerate() {
            *c = [row as u8, col as u8, 255];
        }
    }
    let css = get_gradient_css("music", &m);
    let mut expected = String::from("\n");
    for b in 0..6 {
        expected.push_str(&format!(
            "        .music .visualizer .bar-{b}{{\n            background-image: linear-gradient(to bottom, rgb(0, {b}, 255), rgb(1, {b}, 255), rgb(2, {b}, 255));\n        }}\n"
        ));
    }
    expected.push_str("    ");
    assert_eq!(css, expected);
}

#[test]
fn item_status_parsing() {
    assert!(matches!(Status::from_str("Passive"), Ok(Status::Passive)));
    assert!(matches!(Status::from_str("Active"), Ok(Status::Active)));
    assert!(matches!(Status::from_str("NeedsAttention"), Ok(Status::NeedsAttention)));
    assert_eq!(Status::from_str("active").unwrap_err(), StatusNotifierItemParseError);
}

#[test]
fn item_category_parsing() {
    assert!(matches!(Category::from_str("ApplicationStatus"), Ok(Category::ApplicationStatus)));
    assert!(matches!(Category::from_str("Communications"), Ok(Category::Communications)));
    assert!(matches!(Category::from_str("SystemServices"), Ok(Category::SystemServices)));
    assert!(matches!(Category::from_str("Hardware"), Ok(Category::Hardware)));
    assert!(Category::from_str("Other").is_err());
}

#[test]
fn menu_status_and_event() {
    assert!(matches!(menu::Status::from_str("normal"), Ok(menu::Status::Normal)));
    assert!(matches!(menu::Status::from_str("notice"), Ok(menu::Status::Notice)));
    assert!(menu::Status::from_str("Normal").is_err());
    assert_eq!(menu::Status::Notice.to_string(), "notice");
    assert!(matches!(menu::Event::from_str("clicked"), Ok(menu::Event::Clicked)));
    assert!(matches!(menu::Event::from_str("hovered"), Ok(menu::Event::Hovered)));
    assert!(menu::Event::from_str("pressed").is_err());
    assert_eq!(menu::Event::Hovered.to_string(), "hovered");
}

#[test]
fn layout_properties() {
    assert!(matches!(TypeProperty::from("standard"), TypeProperty::Standard));
    assert!(matches!(TypeProperty::from("separator"), TypeProperty::Separator));
    match TypeProperty::from("custom") {
        TypeProperty::Vendor(v) => assert_eq!(v, "custom"),
        other => panic!("unexpected {:?}", other),
    }
    assert!(matches!(ToggleProperty::from("checkmark"), ToggleProperty::Checkmark));
    assert!(matches!(ToggleProperty::from("radio"), ToggleProperty::Radio));
    assert!(matches!(ToggleProperty::from("x"), ToggleProperty::NoToggle));
    assert!(matches!(ToggleProperty::default(), ToggleProperty::NoToggle));
    assert_eq!(
        LayoutParseError::invalid_type("label", "bad"),
        LayoutParseError::InvalidType("prop: label, err: bad".to_string())
    );
}

#[test]
fn icon_type_names() {
    assert_eq!(IconType::Icon.to_string(), "Icon");
    assert_eq!(IconType::AttentionIcon.to_string(), "AttentionIcon");
    assert_eq!(IconType::OverlayIcon.to_string(), "OverlayIcon");
}

#[test]
fn module_config_defaults() {
    let c = ClockConfig::default();
    assert!(c.format_24h);
    assert_eq!(c.hour_hand_color, "white");
    assert_eq!(c.tick_color, "lightgray");
    let e = ExampleConfig::default();
    assert_eq!(e.vec, vec!["Example2".to_string(), "Example3".to_string()]);
    assert_eq!(e.duration, 400);
    assert_eq!(SystrayConfig::default().menu_height_mode, "2-step");
}

#[test]
fn menu_height_mode_any_case() {
    assert_eq!(MenuHeightMode::from("MAX"), MenuHeightMode::Max);
    assert_eq!(MenuHeightMode::from("Current"), MenuHeightMode::Current);
    assert_eq!(MenuHeightMode::from("2-Step"), MenuHeightMode::TwoStep);
    assert_eq!(MenuHeightMode::from("other"), MenuHeightMode::TwoStep);
    assert_eq!(MenuHeightMode::from_lowercase("max"), MenuHeightMode::Max);
    assert_eq!(MenuHeightMode::from_lowercase("MAX"), MenuHeightMode::TwoStep);
}

#[test]
fn label_mnemonics_dropped() {
    assert_eq!(strip_underscore_from_label("_File"), "File");
    assert_eq!(strip_underscore_from_label("Save _As"), "Save As");
    assert_eq!(strip_underscore_from_label("a__b"), "a_b");
    assert_eq!(strip_underscore_from_label(""), "");
    assert_eq!(strip_underscore_from_label("___"), "__");
}
