//! What the panels and the toolbar show.

use matter::binary32::single::Single;
use matter::canvas::stroke::ActiveTool;
use matter::layer::Layer;
use matter::panels::identity::NewLayer;
use matter::panels::layers::{render_layer_item, render_layers_panel, FontWeight, RowFill};
use matter::panels::properties::render_properties_panel;
use matter::ui::color_panel::{render_color_panel, Rgba};
use matter::ui::icon::IconName;
use matter::ui::layer_panel::render_layer_panel;
use matter::ui::toolbar::render_toolbar;

fn single(x: f32) -> Single {
    Single { bits: x.to_bits() }
}

fn layers() -> Vec<Layer> {
    vec![
        Layer::Raster { id: String::from("r1"), name: String::from("Sky"), visible: true },
        Layer::Vector { id: String::from("v2"), name: String::from("Text"), visible: false },
    ]
}

fn rgba(r: f32, g: f32, b: f32) -> Rgba {
    Rgba { r: single(r), g: single(g), b: single(b), a: single(1.0) }
}

#[test]
fn a_row_for_each_layer() {
    let active = String::from("v2");
    let panel = render_layers_panel(&layers(), Some(&active));
    assert_eq!(panel.layer_count, 2);
    assert_eq!(panel.rows.len(), 2);
    let sky = &panel.rows[0];
    assert_eq!(sky.layer_id, "r1");
    assert_eq!(sky.name, "Sky");
    assert_eq!(sky.weight, FontWeight::Normal);
    assert_eq!(sky.fill, RowFill::Background);
    assert!(!sky.accent_edge);
    assert_eq!(sky.visibility_button, "layer-vis-0");
    assert_eq!(sky.visibility_icon, IconName::Eye);
    assert_eq!(sky.delete_button, "layer-del-0");
    assert_eq!(sky.delete_icon, IconName::Trash);
    let text = &panel.rows[1];
    assert_eq!(text.layer_id, "v2");
    assert_eq!(text.name, "Text");
    assert_eq!(text.weight, FontWeight::Semibold);
    assert_eq!(text.fill, RowFill::Accent);
    assert!(text.accent_edge);
    assert_eq!(text.visibility_button, "layer-vis-1");
    assert_eq!(text.visibility_icon, IconName::EyeOff);
    assert_eq!(text.delete_button, "layer-del-1");
}

#[test]
fn no_active_layer_no_active_row() {
    assert!(render_layers_panel(&layers(), None).rows.iter().all(|r| !r.accent_edge));
    let other = String::from("x");
    assert!(render_layers_panel(&layers(), Some(&other)).rows.iter().all(|r| !r.accent_edge));
    assert_eq!(render_layers_panel(&vec![], None).layer_count, 0);
}

#[test]
fn a_row_far_down_the_list() {
    let row = render_layer_item(&layers()[0], 1234, true);
    assert_eq!(row.visibility_button, "layer-vis-1234");
    assert_eq!(row.delete_button, "layer-del-1234");
    assert!(row.accent_edge);
}

#[test]
fn a_new_layer_from_given_bits() {
    let layer = NewLayer::with_bits(0x0123_4567_89ab_4def_8123_4567_89ab_cdef, 2);
    assert_eq!(layer.id, "layer-01234567-89ab-4def-8123-456789abcdef");
    assert_eq!(layer.name, "Layer 3");
    assert_eq!(NewLayer::with_bits(0, 0).id, "layer-00000000-0000-0000-0000-000000000000");
    assert_eq!(NewLayer::with_bits(u128::MAX, 99).id, "layer-ffffffff-ffff-ffff-ffff-ffffffffffff");
    assert_eq!(NewLayer::with_bits(1, 0).name, "Layer 1");
    assert_ne!(NewLayer::with_bits(1, 0).id, NewLayer::with_bits(2, 0).id);
}

#[test]
fn a_new_layer_at_random() {
    let mut seen: Vec<String> = vec![];
    for count in 0..50usize {
        let layer = NewLayer::new(count);
        assert_eq!(layer.name, format!("Layer {}", count + 1));
        let id: Vec<char> = layer.id.chars().collect();
        assert_eq!(id.len(), 42);
        assert!(layer.id.starts_with("layer-"));
        for at in [14, 19, 24, 29] {
            assert_eq!(id[at], '-');
        }
        // The version, and the variant that goes with it.
        assert_eq!(id[20], '4');
        assert!(matches!(id[25], '8' | '9' | 'a' | 'b'));
        assert!(id[6..].iter().all(|c| *c == '-' || c.is_ascii_digit() || ('a'..='f').contains(c)));
        assert!(!seen.contains(&layer.id));
        seen.push(layer.id);
    }
}

#[test]
fn a_layer_that_was_made_becomes_active() {
    let made = NewLayer::with_bits(7, 0);
    let id = made.id.clone();
    assert_eq!(made.active_after(true, Some(String::from("old"))), Some(id));
    let failed = NewLayer::with_bits(7, 0);
    assert_eq!(failed.active_after(false, Some(String::from("old"))), Some(String::from("old")));
    assert_eq!(NewLayer::with_bits(7, 0).active_after(false, None), None);
}

#[test]
fn the_settings_of_the_brush() {
    let panel = render_properties_panel(single(12.0), single(0.5));
    assert_eq!(panel.size_label, "12px");
    assert_eq!(panel.opacity_label, "Opacity: 50%");
    for (size, opacity) in [(0.5f32, 1.0f32), (2.5, 0.125), (99.6, 0.335), (300.0, 0.0), (1.5, 0.005)] {
        let panel = render_properties_panel(single(size), single(opacity));
        assert_eq!(panel.size_label, format!("{:.0}px", size));
        assert_eq!(panel.opacity_label, format!("Opacity: {:.0}%", opacity * 100.0));
    }
}

#[test]
fn the_two_colours() {
    let panel = render_color_panel(rgba(1.0, 0.5, 0.0), rgba(0.2, 0.4, 0.6));
    assert_eq!(panel.fg_rgb, 0xff7f00);
    assert_eq!(panel.bg_rgb, 0x336699);
    assert_eq!(panel.label, "RGB: 255, 127, 0");
}

#[test]
fn colours_out_of_range_are_cut_off() {
    let panel = render_color_panel(rgba(-1.0, 7.0, f32::NAN), rgba(f32::INFINITY, 0.999, 0.0));
    assert_eq!(panel.fg_rgb, 0x00ff00);
    assert_eq!(panel.bg_rgb, 0xfffe00);
    assert_eq!(panel.label, "RGB: 0, 255, 0");
}

#[test]
fn colours_are_those_of_the_machine() {
    for i in 0..=1000u32 {
        let v = i as f32 / 1000.0;
        let byte = (v * 255.0) as u8;
        let panel = render_color_panel(rgba(v, 1.0 - v, v), rgba(v, v, v));
        assert_eq!(panel.bg_rgb, ((byte as u32) << 16) | ((byte as u32) << 8) | byte as u32);
        assert_eq!(panel.label, format!("RGB: {}, {}, {}", byte, ((1.0 - v) * 255.0) as u8, byte));
    }
}

#[test]
fn the_names_of_the_layers() {
    let entries = render_layer_panel(layers());
    assert_eq!(entries.len(), 2);
    assert_eq!(entries[0].name, "Sky");
    assert_eq!(entries[0].text_color, 0xcccccc);
    assert_eq!(entries[0].glyph, "👁");
    assert_eq!(entries[1].name, "Text");
    assert_eq!(entries[1].text_color, 0x666666);
    assert_eq!(entries[1].glyph, "🚫");
}

#[test]
fn the_buttons_of_the_bar() {
    let bar = render_toolbar(true, false, ActiveTool::Fill);
    assert!(!bar.can_undo);
    assert!(bar.can_redo);
    let shown: Vec<(&str, &str, ActiveTool, bool)> =
        bar.tools.iter().map(|t| (t.id.as_str(), t.tooltip, t.tool, t.primary)).collect();
    assert_eq!(
        shown,
        vec![
            ("tool_EditPencil", "Paint (B)", ActiveTool::Paint, false),
            ("tool_Erase", "Eraser (E)", ActiveTool::Erase, false),
            ("tool_Droplet", "Fill (G)", ActiveTool::Fill, true),
            ("tool_Eye", "Eyedropper (I)", ActiveTool::Eyedropper, false),
            ("tool_DragHandGesture", "Pan (H)", ActiveTool::Pan, false),
        ],
    );
    for tool in &bar.tools {
        assert_eq!(tool.id, format!("tool_{:?}", tool.icon));
    }
}

#[test]
fn one_button_stands_out() {
    for tool in [ActiveTool::Paint, ActiveTool::Erase, ActiveTool::Fill, ActiveTool::Eyedropper, ActiveTool::Pan] {
        let bar = render_toolbar(false, true, tool);
        assert!(bar.can_undo);
        assert!(!bar.can_redo);
        let primary: Vec<ActiveTool> = bar.tools.iter().filter(|t| t.primary).map(|t| t.tool).collect();
        assert_eq!(primary, vec![tool]);
    }
}
