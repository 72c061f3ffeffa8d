//! Geometry, wires, labels, names, identifiers and documents.

use pcb_schematic::canvas::{label_stubs, Endpoint, StubKind};
use pcb_schematic::config::{Paper, SchConfig};
use pcb_schematic::document::{
    PlaceSymbol, SheetRef, SheetRefPin, SheetWriter, SheetWriterOptions,
};
use pcb_schematic::erc::{choose_output, tally, verdict, Output, OutputArg, Violation, Verdict};
use pcb_schematic::extract::BuildError;
use pcb_schematic::generate::pick_paper;
use pcb_schematic::geometry::{
    apply_mirror, parse_lib_symbol, raw_box, rotate_ccw, BBox, LibSymbol, MirrorAxis, SymbolError,
};
use pcb_schematic::glyphs::{
    boxes_collide_tol, label_text_box, net_label_rotation, power_attachment, power_points_down,
    power_potential_rank, ref_text_box, value_text_box,
};
use pcb_schematic::model::{NetClass, Role, Side};
use pcb_schematic::names::{fresh_name, sanitize_name, slugify};
use pcb_schematic::place::{label_stub_len, label_text_width};
use pcb_schematic::project::{kicad_pro_content, ProjectError};
use pcb_schematic::registry::{LabelBox, Reg};
use pcb_schematic::roles::parse_capacitance;
use pcb_schematic::sexpr::Sexpr;
use pcb_schematic::subsets::group_wire_subsets;
use pcb_schematic::symbols::{
    escape, kicad_footprint_name, lib_nickname, symbol_name_of, LibIdAllocator,
};
use pcb_schematic::text::{to_mm_text, Text};
use pcb_schematic::texts::power_graphic_zone_boxes;
use pcb_schematic::units::{Iu, Point};
use pcb_schematic::uuid::{stable_uuid, UuidGen};
use pcb_schematic::warning::Warning;
use pcb_schematic::wiring::{
    path_bends, path_length_mm, segs_cross_frank, segs_touch_forbidden, tree_pair_candidates, Span,
};
use pcb_schematic::writer::{
    flag_label_justify, infer_sheet_pin_rotation, label_justify, render_justify, text_angle,
    unit_base_name, PortDirection, POWER_LIB_NICKNAME,
};
use pcb_schematic::wording::warning_lines;

// ------------------------------------------------------------------ helpers

fn iu(v: f64) -> Iu {
    (v * 10000.0).round() as Iu
}

fn p(x: f64, y: f64) -> Point {
    Point { x: iu(x), y: iu(y) }
}

fn d(x: i32, y: i32) -> Point {
    Point { x, y }
}

fn path(points: &[(f64, f64)]) -> Vec<Point> {
    points.iter().map(|q| p(q.0, q.1)).collect()
}

fn s(text: &str) -> String {
    text.to_string()
}

fn span(x1: f64, y1: f64, x2: f64, y2: f64) -> Span {
    Span { x1: iu(x1), y1: iu(y1), x2: iu(x2), y2: iu(y2) }
}

/// Read one tree from the text.
fn read(text: &str) -> Sexpr {
    let chars: Vec<char> = text.chars().collect();
    let mut at = 0;
    read_from(&chars, &mut at)
}

fn read_from(c: &[char], at: &mut usize) -> Sexpr {
    while c[*at].is_whitespace() {
        *at += 1;
    }
    if c[*at] == '(' {
        *at += 1;
        let mut items = Vec::new();
        loop {
            while c[*at].is_whitespace() {
                *at += 1;
            }
            if c[*at] == ')' {
                *at += 1;
                return Sexpr::List(items);
            }
            items.push(read_from(c, at));
        }
    }
    if c[*at] == '"' {
        *at += 1;
        let mut t = String::new();
        while c[*at] != '"' {
            if c[*at] == '\\' {
                *at += 1;
            }
            t.push(c[*at]);
            *at += 1;
        }
        *at += 1;
        return Sexpr::Str(t);
    }
    let mut t = String::new();
    while *at < c.len() && !c[*at].is_whitespace() && c[*at] != '(' && c[*at] != ')' {
        t.push(c[*at]);
        *at += 1;
    }
    if let Ok(v) = t.parse::<i64>() {
        return Sexpr::Int(v);
    }
    if let Ok(v) = t.parse::<f64>() {
        return Sexpr::Num(iu(v));
    }
    Sexpr::Symbol(t)
}

/// The tree on one line.
fn show(node: &Sexpr) -> String {
    match node {
        Sexpr::List(items) => {
            let inner: Vec<String> = items.iter().map(show).collect();
            format!("({})", inner.join(" "))
        }
        Sexpr::Symbol(t) => t.clone(),
        Sexpr::Str(t) => format!("\"{}\"", t.replace('\\', "\\\\").replace('"', "\\\"")),
        Sexpr::Int(v) => v.to_string(),
        Sexpr::Num(v) => to_mm_text(*v).into_iter().collect(),
    }
}

const R_SMALL: &str = r#"(symbol "R_Small"
    (pin_numbers (hide yes))
    (pin_names (offset 0.254) (hide yes))
    (exclude_from_sim no) (in_bom yes) (on_board yes)
    (property "Reference" "R" (at 0 0 90) (effects (font (size 1.016 1.016))))
    (property "Value" "R_Small" (at 1.778 0 90) (effects (font (size 1.27 1.27))))
    (symbol "R_Small_0_1"
        (rectangle (start -0.762 1.778) (end 0.762 -1.778)
            (stroke (width 0.2032) (type default)) (fill (type none)))
    )
    (symbol "R_Small_1_1"
        (pin passive line (at 0 2.54 270) (length 0.762)
            (name "" (effects (font (size 1.27 1.27))))
            (number "1" (effects (font (size 1.27 1.27)))))
        (pin passive line (at 0 -2.54 90) (length 0.762)
            (name "" (effects (font (size 1.27 1.27))))
            (number "2" (effects (font (size 1.27 1.27)))))
    )
    (embedded_fonts no)
)"#;

fn small(rename: Option<&str>) -> LibSymbol {
    parse_lib_symbol(read(R_SMALL), rename).unwrap()
}

fn add_small(w: &mut SheetWriter) {
    let symbol = small(Some("Device:R_Small"));
    w.add_lib_symbol(&symbol.geom, &symbol.sexpr);
}

fn writer() -> SheetWriter {
    SheetWriter::new(SheetWriterOptions {
        title: s("test"),
        file_name: s("test.kicad_sch"),
        paper: s("A4"),
        generator: s("pcb"),
        generator_version: s("0.0.0"),
        project_name: s("test"),
        is_root: true,
        instance_path_prefix: None,
        power_ref_offset: 0,
    })
}

// ------------------------------------------------------------------ configuration

#[test]
fn defaults_are_on_grid() {
    let c = SchConfig::default();
    for v in [
        c.col_gap_mm,
        c.row_gap_mm,
        c.satellite_gap_mm,
        c.stub_mm,
        c.power_stub_mm,
        c.margin_left_mm,
        c.margin_top_mm,
    ] {
        assert_eq!(v % c.grid_mm, 0, "{v} is not a grid multiple");
    }
}

#[test]
fn snap_rounds_to_grid() {
    let c = SchConfig::default();
    assert_eq!(c.snap(iu(2.6) as i64), iu(2.54));
    assert_eq!(c.snap(0), 0);
    assert_eq!(c.snap_up(iu(0.1) as i64), iu(1.27));
    assert_eq!(c.snap_up(iu(1.27) as i64), iu(1.27));
    assert_eq!(c.snap(-(iu(2.6) as i64)), -iu(2.54));
    assert_eq!(c.min_pin_exit_mm(), iu(2.54));
}

#[test]
fn papers_have_sizes_and_names() {
    assert_eq!(Paper::A4.size(), (2970000, 2100000));
    assert_eq!(Paper::A3.size(), (4200000, 2970000));
    assert_eq!(Paper::A2.kicad_name(), "A2");
    assert_eq!(Paper::default(), Paper::Auto);
    assert_eq!(Paper::Auto.kicad_name(), "A4");
}

#[test]
fn the_smallest_paper_that_fits_is_picked() {
    let mut cfg = SchConfig::default();
    let fits = |x: f64, y: f64| BBox { x1: 0, y1: 0, x2: iu(x), y2: iu(y) };
    assert_eq!(pick_paper(&cfg, &fits(284.3, 190.95)), Paper::A4);
    assert_eq!(pick_paper(&cfg, &fits(284.31, 190.95)), Paper::A3);
    assert_eq!(pick_paper(&cfg, &fits(100.0, 190.96)), Paper::A3);
    assert_eq!(pick_paper(&cfg, &fits(500.0, 100.0)), Paper::A2);
    assert_eq!(pick_paper(&cfg, &fits(5000.0, 100.0)), Paper::A2);
    cfg.paper = Paper::A4;
    assert_eq!(pick_paper(&cfg, &fits(5000.0, 100.0)), Paper::A4);
}

// ------------------------------------------------------------------ symbols

#[test]
fn parses_pins_and_bbox() {
    let symbol = small(Some("Device:R_Small"));
    let geom = symbol.geom;
    assert_eq!(geom.lib_id.show(), "Device:R_Small");
    assert_eq!(geom.pins.len(), 2);

    let p1 = geom.pin("1").unwrap();
    assert_eq!((p1.x, p1.y, p1.angle), (0, iu(2.54), 270));
    assert_eq!(p1.etype.show(), "passive");
    assert!(!p1.hidden);

    assert_eq!(
        geom.body_bbox,
        BBox { x1: iu(-0.762), y1: iu(-1.778), x2: iu(0.762), y2: iu(1.778) }
    );
    assert_eq!(geom.full_bbox.y2, iu(2.54));

    // The rename must be visible in the tree.
    let text = show(&symbol.sexpr);
    assert!(text.contains("\"Device:R_Small\""));
    assert!(text.contains("\"R_Small_0_1\""));
}

#[test]
fn pin_position_applies_rotation_mirror_and_y_flip() {
    let geom = small(None).geom;
    // Rotation 0: pin 1 (lib top) lands above the anchor on the sheet.
    assert_eq!(geom.pin_position(&s("1"), p(127.0, 63.5), 0, None), Some(p(127.0, 60.96)));
    assert_eq!(geom.pin_position(&s("2"), p(127.0, 63.5), 0, None), Some(p(127.0, 66.04)));
    // Rotation 90 (CCW in lib coords): pin 1 goes to the left on the sheet.
    assert_eq!(geom.pin_position(&s("1"), p(127.0, 63.5), 90, None), Some(p(124.46, 63.5)));
    // Mirror X flips the library Y axis.
    assert_eq!(
        geom.pin_position(&s("1"), p(127.0, 63.5), 0, Some(MirrorAxis::X)),
        Some(p(127.0, 66.04))
    );
    assert_eq!(geom.pin_position(&s("9"), p(127.0, 63.5), 0, None), None);
}

#[test]
fn pin_outward_points_away_from_body() {
    let geom = small(None).geom;
    // Pin 1 is on top of the body (lib +Y): outward is up on the sheet.
    assert_eq!(geom.pin_outward(&s("1"), 0, None), Some(d(0, -1)));
    assert_eq!(geom.pin_outward(&s("2"), 0, None), Some(d(0, 1)));
    assert_eq!(geom.pin_outward(&s("1"), 90, None), Some(d(-1, 0)));
}

#[test]
fn hidden_pin_detection_both_syntaxes() {
    let old = r#"(symbol "X" (symbol "X_1_1"
        (pin power_in line (at 0 0 90) (length 0) hide
            (name "VSS" (effects (font (size 1.27 1.27))))
            (number "3" (effects (font (size 1.27 1.27)))))))"#;
    let new = r#"(symbol "X" (symbol "X_1_1"
        (pin power_in line (at 0 0 90) (length 0) (hide yes)
            (name "VSS" (effects (font (size 1.27 1.27))))
            (number "3" (effects (font (size 1.27 1.27)))))))"#;
    for raw in [old, new] {
        let geom = parse_lib_symbol(read(raw), None).unwrap().geom;
        assert!(geom.pins[0].hidden, "hidden not detected in: {raw}");
    }
}

#[test]
fn blocks_that_are_no_symbols_are_refused() {
    let fails = |text: &str| parse_lib_symbol(read(text), None).unwrap_err();
    assert_eq!(fails("symbol "), SymbolError::NotAList);
    assert_eq!(fails("(wire)"), SymbolError::NotASymbol);
    assert_eq!(fails("(symbol)"), SymbolError::NoName);
    assert_eq!(fails("(symbol X)"), SymbolError::NameNotString);
}

#[test]
fn raw_box_rotation() {
    let geom = small(None).geom;
    let b0 = raw_box(&geom, p(100.0, 50.0), 0, None);
    // Vertical resistor: taller than wide.
    assert!(b0.y2 - b0.y1 > b0.x2 - b0.x1);
    let b90 = raw_box(&geom, p(100.0, 50.0), 90, None);
    assert!(b90.x2 - b90.x1 > b90.y2 - b90.y1);
}

#[test]
fn footprint_names_are_converted() {
    assert_eq!(
        kicad_footprint_name(
            "package://stdlib/kicad-footprints/Resistor_SMD.pretty/R_0402_1005Metric.kicad_mod"
        ),
        "Resistor_SMD:R_0402_1005Metric"
    );
    assert_eq!(kicad_footprint_name("Lib:FP"), "Lib:FP");
}

#[test]
fn lib_nickname_from_symbol_path() {
    assert_eq!(
        lib_nickname(Some("package://stdlib/kicad-symbols/Device.kicad_symdir/R_Small.kicad_sym")),
        "Device"
    );
    assert_eq!(lib_nickname(Some("/abs/path/MyLib.kicad_sym")), "MyLib");
    assert_eq!(lib_nickname(None), "zener");
}

#[test]
fn windows_paths_and_bare_names_are_understood() {
    assert_eq!(lib_nickname(Some("C:\\libs\\Power.kicad_symdir\\VCC.kicad_sym")), "Power");
    assert_eq!(lib_nickname(Some("plain.txt")), "zener");
    assert_eq!(kicad_footprint_name("a\\B.pretty\\C"), "B:C");
    assert_eq!(kicad_footprint_name("a/B.pretty"), "a/B.pretty");
}

#[test]
fn library_ids_are_shared_by_equal_blocks_only() {
    let mut ids = LibIdAllocator::new();
    let a = s("(symbol \"R\" (one))");
    let b = s("(symbol \"R\" (two))");
    let c = s("(symbol \"Lib:R\")");
    assert_eq!(ids.lib_id_for(&a, Some("/x/Device.kicad_sym")), "Device:R");
    assert_eq!(ids.lib_id_for(&b, Some("/x/Device.kicad_sym")), "Device:R_2");
    assert_eq!(ids.lib_id_for(&a, None), "Device:R");
    assert_eq!(ids.lib_id_for(&c, None), "Lib:R");
    assert_eq!(ids.lib_id_for(&s("no quotes"), None), "zener:Symbol");
    assert_eq!(symbol_name_of("(symbol \"A B\" x)"), Some(s("A B")));
    assert_eq!(symbol_name_of("(symbol \"A"), None);
}

#[test]
fn quotes_and_backslashes_are_escaped() {
    assert_eq!(escape("a\"b\\c"), "a\\\"b\\\\c");
    assert_eq!(escape("plain"), "plain");
}

// ------------------------------------------------------------------ names and identifiers

#[test]
fn slugify_names() {
    assert_eq!(slugify("R_SHUNT"), "r_shunt");
    assert_eq!(slugify("Défi éße"), "d_fi_e");
    assert_eq!(slugify("__x__"), "x");
}

#[test]
fn taken_names_get_numbers() {
    let base: Vec<char> = "a".chars().collect();
    let tail: Vec<char> = ".k".chars().collect();
    assert_eq!(fresh_name(&base, &tail, &vec![]), "a.k");
    assert_eq!(fresh_name(&base, &tail, &vec![s("a.k")]), "a_2.k");
    assert_eq!(fresh_name(&base, &tail, &vec![s("a_2.k"), s("a.k")]), "a_3.k");
    assert_eq!(fresh_name(&base, &tail, &vec![s("a_2.k")]), "a.k");
}

#[test]
fn net_names_become_symbol_names() {
    assert_eq!(sanitize_name("N$1"), "N_1");
    assert_eq!(sanitize_name("+3.3V-A"), "+3.3V-A");
    assert_eq!(sanitize_name(""), "NET");
    assert_eq!(unit_base_name("pcb_power:VCC"), "VCC");
    assert_eq!(unit_base_name("VCC"), "VCC");
}

#[test]
fn same_key_gets_distinct_sequential_uuids() {
    let mut a = UuidGen::new("sheet.kicad_sch");
    let u1 = a.next(&["wire", "1,2", "3,4"]);
    let u2 = a.next(&["wire", "1,2", "3,4"]);
    assert_ne!(u1, u2);

    // A fresh generator replays the exact same sequence.
    let mut b = UuidGen::new("sheet.kicad_sch");
    assert_eq!(b.next(&["wire", "1,2", "3,4"]), u1);
    assert_eq!(b.next(&["wire", "1,2", "3,4"]), u2);
}

#[test]
fn seed_isolates_sheets() {
    let mut a = UuidGen::new("a.kicad_sch");
    let mut b = UuidGen::new("b.kicad_sch");
    assert_ne!(a.next(&["symbol", "R1"]), b.next(&["symbol", "R1"]));
}

#[test]
fn part_boundaries_are_unambiguous() {
    let mut g = UuidGen::new("s");
    let u1 = g.next(&["ab", "c"]);
    let mut g = UuidGen::new("s");
    let u2 = g.next(&["a", "bc"]);
    assert_ne!(u1, u2);
}

#[test]
fn uuids_are_rfc4122_v5() {
    let u = stable_uuid("anything");
    let parsed = uuid::Uuid::parse_str(&u).unwrap();
    assert_eq!(parsed.get_version_num(), 5);
}

#[test]
fn identifiers_are_those_of_the_private_namespace() {
    let space = uuid::Uuid::new_v5(&uuid::Uuid::NAMESPACE_URL, b"pcb-schematic");
    assert_eq!(
        stable_uuid("key"),
        uuid::Uuid::new_v5(&space, b"key").to_string()
    );
    let mut g = UuidGen::new("f.kicad_sch");
    let first = uuid::Uuid::new_v5(&space, "f.kicad_sch\u{1f}a\u{1f}b\u{1f}0".as_bytes());
    let again = uuid::Uuid::new_v5(&space, "f.kicad_sch\u{1f}a\u{1f}b\u{1f}1".as_bytes());
    assert_eq!(g.next(&["a", "b"]), first.to_string());
    assert_eq!(g.next(&["a", "b"]), again.to_string());
    let root = uuid::Uuid::new_v5(&space, "f.kicad_sch\u{1f}__root__".as_bytes());
    assert_eq!(g.root_uuid(), root.to_string());
}

// ------------------------------------------------------------------ roles

#[test]
fn attributes_name_roles_and_sides() {
    assert_eq!(Role::from_attr("MCU"), Some(Role::Mcu));
    assert_eq!(Role::from_attr("Decoupling"), Some(Role::Decoupling));
    assert_eq!(Role::from_attr("other"), None);
    assert_eq!(Side::from_attr("Top"), Some(Side::Above));
    assert_eq!(Side::from_attr("bottom"), Some(Side::Below));
    assert_eq!(Side::from_attr("middle"), None);
    assert_eq!(Side::default_for(Role::Pull), Side::Above);
    assert_eq!(Side::default_for(Role::Mcu), Side::Below);
    assert!(Role::Led.is_satellite());
    assert!(!Role::Crystal.is_satellite());
}

#[test]
fn capacitances_are_read_in_every_unit() {
    let pf = |t: &str| parse_capacitance(t).map(|c| (c.below_zero, c.pf));
    assert_eq!(pf("10uF"), Some((false, 10_000_000)));
    assert_eq!(pf("100nF 10%"), Some((false, 100_000)));
    assert_eq!(pf(" 4.7 pF "), Some((false, 4)));
    assert_eq!(pf("0.1\u{b5}F"), Some((false, 100_000)));
    assert_eq!(pf("1mF"), Some((false, 1_000_000_000)));
    assert_eq!(pf("1F"), Some((false, 1_000_000_000_000)));
    assert_eq!(pf("-1nF"), Some((true, 1000)));
    assert_eq!(pf("-0nF"), Some((false, 0)));
    assert_eq!(pf(".5nF"), Some((false, 500)));
    assert_eq!(pf("10k"), None);
    assert_eq!(pf("uF"), None);
    assert_eq!(pf("1.2.3nF"), None);
    assert_eq!(pf("99999999999999999999F"), Some((false, u64::MAX)));
}

// ------------------------------------------------------------------ labels and power

#[test]
fn label_stub_len_underlines_text() {
    let cfg = SchConfig::default();
    assert!(label_stub_len(&cfg, "A") >= cfg.label_stub_min_grid_steps as Iu * cfg.grid_mm);
    assert!(label_stub_len(&cfg, "A_LONG_NET_NAME") >= label_text_width("A_LONG_NET_NAME"));
    // Always a grid multiple.
    let l = label_stub_len(&cfg, "SOME_NET");
    assert_eq!(l % cfg.grid_mm, 0);
}

#[test]
fn net_label_rotation_flips_locals_keeps_ports() {
    for outward in [0, 180] {
        assert_eq!(net_label_rotation(true, outward), outward);
        assert_eq!(net_label_rotation(false, outward), (outward + 180).rem_euclid(360));
    }
    // A local label on a rightward stub gets rotation 180: its text box lies to the LEFT of the
    // anchor, over the wire, not off its far end.
    let at = p(50.0, 20.0);
    let over = label_text_box("BUS", at, net_label_rotation(false, 0));
    assert!(over.x2 <= at.x && over.x1 < at.x, "text overhangs the wire");
}

#[test]
fn sibling_label_boxes_tolerate_a_two_step_stack_but_not_a_real_overlap() {
    let a = label_text_box("AIN_P", p(50.0, 20.0), 180);
    let two_step = label_text_box("AIN_N", p(50.0, 22.54), 180); // +2 grid steps
    let one_step = label_text_box("AIN_N", p(50.0, 21.27), 180); // +1 grid step
    let on_top = label_text_box("AIN_N", p(50.0, 20.0), 180); // same anchor
    assert!(!boxes_collide_tol(&a, &two_step, iu(0.5)), "a tidy two-step stack must pass");
    assert!(boxes_collide_tol(&a, &one_step, iu(0.5)), "a one-step stack is a real overlap");
    assert!(boxes_collide_tol(&a, &on_top, iu(0.5)), "coincident labels collide");
}

#[test]
fn power_attachment_shapes() {
    let cfg = SchConfig::default();
    // Vertical pin: straight stub.
    let a = power_attachment(&cfg, p(10.0, 10.0), d(0, 1), true, 0, 0);
    assert_eq!(a.path.len(), 2);
    assert_eq!(a.symbol_at, p(10.0, 12.54));
    // Horizontal pin: elbow + vertical return (up for a rail).
    let b = power_attachment(&cfg, p(10.0, 10.0), d(1, 0), false, 0, 0);
    assert_eq!(b.path.len(), 3);
    assert_eq!(b.symbol_at, p(12.54, 7.46));
}

#[test]
fn power_potential_orders_rails_ground_negatives() {
    // Positive rail outranks ground outranks negative rail.
    assert_eq!(power_potential_rank("VDD", NetClass::Power), 1);
    assert_eq!(power_potential_rank("VCC", NetClass::Power), 1);
    assert_eq!(power_potential_rank("+5V", NetClass::Power), 1);
    assert_eq!(power_potential_rank("GND", NetClass::Ground), 0);
    assert_eq!(power_potential_rank("VSS", NetClass::Ground), 0);
    assert_eq!(power_potential_rank("VEE", NetClass::Power), -1);
    assert_eq!(power_potential_rank("-12V", NetClass::Power), -1);
    assert_eq!(power_potential_rank("V-", NetClass::Power), -1);
    assert!(
        power_potential_rank("VDD", NetClass::Power)
            > power_potential_rank("GND", NetClass::Ground)
    );
    assert!(
        power_potential_rank("GND", NetClass::Ground)
            > power_potential_rank("VEE", NetClass::Power)
    );
    // Grounds and negative rails hang down; positive rails point up.
    assert!(power_points_down("GND", NetClass::Ground));
    assert!(power_points_down("VEE", NetClass::Power));
    assert!(!power_points_down("VDD", NetClass::Power));
    assert!(!power_points_down("+3V3", NetClass::Power));
}

#[test]
fn text_boxes_extend_from_their_anchor() {
    let r = ref_text_box("R1", p(10.0, 20.0), false);
    assert!(r.x1 == iu(10.0) && r.x2 > iu(10.0));
    assert!(r.y1 < iu(20.0) && r.y2 >= iu(20.0));
    // Right-justified reference: anchor is the RIGHT edge, text extends left.
    let r_right = ref_text_box("R1", p(10.0, 20.0), true);
    assert!(r_right.x2 == iu(10.0) && r_right.x1 < iu(10.0));
    assert!(r_right.y1 < iu(20.0) && r_right.y2 >= iu(20.0));
    let v_right = value_text_box("10k", p(30.0, 40.0), true);
    assert!(v_right.x2 == iu(30.0) && v_right.x1 < iu(30.0));
    assert!(v_right.y2 > iu(40.0));
    let v_left = value_text_box("10k", p(30.0, 40.0), false);
    assert!(v_left.x1 == iu(30.0) && v_left.x2 > iu(30.0));
}

#[test]
fn power_graphic_zone_is_narrow_at_the_shaft() {
    let (shaft, text) = power_graphic_zone_boxes("GND", p(0.0, 0.0), true);
    assert!(shaft.x2 - shaft.x1 <= iu(3.3));
    assert!(text.x2 - text.x1 > shaft.x2 - shaft.x1);
    // The shaft starts at the connection point.
    assert_eq!(shaft.y1, 0);
    assert!(text.y1 >= shaft.y2);
    // Rail (up): mirrored above the connection point.
    let (shaft_up, text_up) = power_graphic_zone_boxes("VCC", p(0.0, 0.0), false);
    assert_eq!(shaft_up.y2, 0);
    assert!(text_up.y2 <= shaft_up.y1);
}

// ------------------------------------------------------------------ wires

#[test]
fn frank_crossing_is_tolerated_but_touch_is_forbidden() {
    let h = span(0.0, 0.0, 10.0, 0.0);
    let v_cross = span(5.0, -5.0, 5.0, 5.0);
    assert!(segs_cross_frank(&h, &v_cross));
    assert!(!segs_touch_forbidden(&h, &v_cross));

    // T contact: the vertical ends ON the horizontal wire.
    let v_touch = span(5.0, 0.0, 5.0, 5.0);
    assert!(!segs_cross_frank(&h, &v_touch));
    assert!(segs_touch_forbidden(&h, &v_touch));

    // Collinear overlap on the same axis.
    let h2 = span(8.0, 0.0, 15.0, 0.0);
    assert!(segs_touch_forbidden(&h, &h2));
    let h3 = span(11.0, 0.0, 15.0, 0.0);
    assert!(!segs_touch_forbidden(&h, &h3));
}

#[test]
fn net_aware_crossings_split_foreign_from_same_net() {
    let mut reg = Reg::new(Vec::new());
    let (a, b) = (s("A"), s("B"));
    reg.register_path(&path(&[(0.0, 0.0), (10.0, 0.0)]), &a); // horizontal wire of net A
    let vcross = path(&[(5.0, -5.0), (5.0, 5.0)]); // vertical through the interior of A
    // Foreign net B: a frank crossing (tolerated under penalty), not same-net.
    assert_eq!(reg.foreign_crossings(&vcross, &b), 1);
    assert!(!reg.same_net_frank_crossing(&vcross, &b));
    // Same net A: a same-net frank crossing (a missing junction, forbidden).
    assert_eq!(reg.foreign_crossings(&vcross, &a), 0);
    assert!(reg.same_net_frank_crossing(&vcross, &a));
    // A T-contact that only touches the wire END is not a frank crossing.
    let vtouch = path(&[(5.0, 0.0), (5.0, 5.0)]);
    assert_eq!(reg.foreign_crossings(&vtouch, &b), 0);
    assert!(!reg.same_net_frank_crossing(&vtouch, &a));
    // The count of all crossings knows no nets.
    assert_eq!(reg.count_crossings(&vcross), 1);
}

#[test]
fn frozen_texts_are_their_characters() {
    let a = Text::of("R_1\u{b5}");
    assert_eq!(a.show(), "R_1\u{b5}");
    assert_eq!(a.clone(), Text::of_chars(vec!['R', '_', '1', '\u{b5}']));
    assert!(a.is("R_1\u{b5}"));
    assert!(!a.is("R_1") && !a.is("R_1\u{b5}x") && !a.is("R_2\u{b5}") && !Text::of("").is("x"));
    assert_ne!(a, Text::of("R_1"));
}

#[test]
fn stubs_of_ports_come_shortest_first() {
    let cfg = SchConfig::default();
    for dir in [(0, 1), (0, -1), (1, 0), (-1, 0)] {
        let ep = Endpoint {
            placed: 0,
            pad: s("1"),
            pos: p(127.0, 63.5),
            dir: Point { x: dir.0, y: dir.1 },
        };
        let c = label_stubs(&cfg, &s("DOUT"), &ep, 3, StubKind::Hier);
        assert_eq!(c.len(), if dir.1 != 0 { 12 } else { 6 });
        let long: Vec<i128> = c.iter().map(|x| path_length_mm(&x.path)).collect();
        assert!(long.windows(2).all(|w| w[0] <= w[1]), "{long:?}");
        // Every place is tried once.
        let mut ends: Vec<(Iu, Iu)> = c.iter().map(|x| (x.at.x, x.at.y)).collect();
        ends.sort();
        ends.dedup();
        assert_eq!(ends.len(), c.len());
        assert!(c.iter().all(|x| x.from == 3));
        if dir.1 != 0 {
            let shortest = cfg.stub_mm as i128 + cfg.label_elbow_mm as i128 + 25400;
            assert_eq!(long[0], shortest);
            assert_eq!(long[11], shortest + 3 * 25400);
        }
    }
}

#[test]
fn label_box_allows_extra_nets() {
    let lb = LabelBox {
        bbox: BBox { x1: 0, y1: 0, x2: iu(1.0), y2: iu(1.0) },
        net: Text::of("A"),
        also: vec![s("B")].into_boxed_slice(),
    };
    assert!(lb.allows(&s("A")));
    assert!(lb.allows(&s("B")));
    assert!(!lb.allows(&s("C")));
}

#[test]
fn facing_pins_get_straight_then_z_candidates() {
    let cfg = SchConfig::default();
    // a at (0,0) exits +x, b at (10.16,0) exits -x: straight first.
    let cands =
        tree_pair_candidates(&cfg, (p(0.0, 0.0), d(1, 0)), (p(10.16, 0.0), d(-1, 0)));
    assert_eq!(cands[0], path(&[(0.0, 0.0), (10.16, 0.0)]));
    assert!(cands.len() > 1, "U-detours follow the straight candidate");
    // Misaligned: Z shapes with a staggered middle column.
    let zs = tree_pair_candidates(&cfg, (p(0.0, 0.0), d(1, 0)), (p(10.16, 5.08), d(-1, 0)));
    assert!(!zs.is_empty());
    for z in &zs {
        assert_eq!(z.len(), 4);
        assert_eq!(z[0], p(0.0, 0.0));
        assert_eq!(z[3], p(10.16, 5.08));
        // Middle column strictly between the pins.
        assert!(z[1].x > 0 && z[1].x < iu(10.16));
    }
}

#[test]
fn perpendicular_pins_get_an_l() {
    let cfg = SchConfig::default();
    // a at (0,0) exits +x; b at (10.16, 10.16) exits up (-y).
    let cands =
        tree_pair_candidates(&cfg, (p(0.0, 0.0), d(1, 0)), (p(10.16, 10.16), d(0, -1)));
    assert_eq!(cands, vec![path(&[(0.0, 0.0), (10.16, 0.0), (10.16, 10.16)])]);
    // Wrong quadrant: no candidate (the corner is behind a pin).
    let none =
        tree_pair_candidates(&cfg, (p(0.0, 0.0), d(-1, 0)), (p(10.16, 10.16), d(0, -1)));
    assert!(none.is_empty());
}

#[test]
fn same_side_pins_get_hooks() {
    let cfg = SchConfig::default();
    let cands = tree_pair_candidates(&cfg, (p(0.0, 0.0), d(1, 0)), (p(0.0, 7.62), d(1, 0)));
    assert!(!cands.is_empty());
    for c in &cands {
        assert_eq!(c.len(), 4);
        // The hook swings past the rightmost exit.
        assert!(c[1].x > 0);
        assert_eq!(c[1].x, c[2].x);
    }
}

#[test]
fn back_to_back_pins_have_no_candidates() {
    let cfg = SchConfig::default();
    // Facing directions but negative channel width (backs turned).
    let cands =
        tree_pair_candidates(&cfg, (p(10.16, 0.0), d(1, 0)), (p(0.0, 0.0), d(-1, 0)));
    assert!(cands.is_empty());
}

fn names(n: usize) -> Vec<String> {
    (0..n).map(|i| format!("U{i}")).collect()
}

#[test]
fn subsets_single_group_takes_everything() {
    // 3 endpoints, all in group rooted at 0 (hub included).
    let subs = group_wire_subsets(
        &vec![0, 1, 2],
        &vec![true, false, false],
        &vec![0, 0, 0],
        &names(3),
    );
    assert_eq!(subs, vec![vec![0, 1, 2]]);
}

#[test]
fn subsets_small_net_drops_the_hub_side() {
    // 3 endpoints in 3 groups; endpoint 1 is a hub.
    let subs = group_wire_subsets(
        &vec![0, 1, 2],
        &vec![false, true, false],
        &vec![0, 1, 2],
        &names(3),
    );
    assert_eq!(subs, vec![vec![0, 2]]);
    // Two of three on hubs: nothing to wire.
    let none = group_wire_subsets(
        &vec![0, 1, 2],
        &vec![false, true, true],
        &vec![0, 1, 2],
        &names(3),
    );
    assert!(none.is_empty());
}

#[test]
fn subsets_large_net_wires_same_group_clusters() {
    // 5 endpoints: comps 0,1 in group 0; comps 2,3 in group 2; comp 4 alone.
    let subs = group_wire_subsets(
        &vec![0, 1, 2, 3, 4],
        &vec![false; 5],
        &vec![0, 0, 2, 2, 4],
        &names(5),
    );
    assert_eq!(subs, vec![vec![0, 1], vec![2, 3]]);
}

#[test]
fn path_length_is_manhattan() {
    assert_eq!(path_length_mm(&path(&[(0.0, 0.0), (3.0, 0.0), (3.0, 4.0)])), 70000);
}

#[test]
fn path_bends_counts_orientation_flips() {
    // Straight: no bend.
    assert_eq!(path_bends(&path(&[(0.0, 0.0), (10.0, 0.0)])), 0);
    // Collinear split: still no bend.
    assert_eq!(path_bends(&path(&[(0.0, 0.0), (5.0, 0.0), (10.0, 0.0)])), 0);
    // L: one bend.
    assert_eq!(path_bends(&path(&[(0.0, 0.0), (10.0, 0.0), (10.0, 5.0)])), 1);
    // Z: two bends.
    assert_eq!(path_bends(&path(&[(0.0, 0.0), (5.0, 0.0), (5.0, 5.0), (10.0, 5.0)])), 2);
    // A zero-length hop between two collinear runs is not a bend.
    assert_eq!(path_bends(&path(&[(0.0, 0.0), (5.0, 0.0), (5.0, 0.0), (10.0, 0.0)])), 0);
}

// ------------------------------------------------------------------ documents

#[test]
fn serialization_is_deterministic() {
    let build = || {
        let mut w = writer();
        add_small(&mut w);
        w.place_symbol(&PlaceSymbol::new("Device:R_Small", "R1", "1k", p(127.0, 63.5))).unwrap();
        w.add_wire(&path(&[(127.0, 60.96), (127.0, 58.42)]));
        w.add_power_symbol("VCC", p(127.0, 58.42), false);
        w.add_net_label("OUT", p(127.0, 66.04), 0);
        w.serialize()
    };
    assert_eq!(build(), build());
}

#[test]
fn document_structure_and_ordering() {
    let mut w = writer();
    add_small(&mut w);
    w.place_symbol(&PlaceSymbol::new("Device:R_Small", "R1", "1k", p(127.0, 63.5))).unwrap();
    w.add_pwr_flag(p(127.0, 58.42), 0);
    let text = show(&w.serialize());

    assert!(text.starts_with("(kicad_sch "));
    assert!(text.contains("(version 20250114)"));
    assert!(text.contains("(paper \"A4\")"));
    assert!(text.contains("(lib_symbols"));
    assert!(text.contains("\"Device:R_Small\""));
    assert!(text.contains(&format!("\"{POWER_LIB_NICKNAME}:PWR_FLAG\"")));
    assert!(text.contains("(reference \"R1\")"));
    assert!(text.contains("(sheet_instances"));
    assert!(text.ends_with("(embedded_fonts no))"));
    // Pin instance uuids present for both pins.
    assert!(text.contains("(pin \"1\""));
    assert!(text.contains("(pin \"2\""));
}

#[test]
fn zone_rect_emits_dashed_graphic_rectangle() {
    let mut w = writer();
    w.add_zone_rect(p(170.0, 20.0), p(210.0, 60.0));
    let text = show(&w.serialize());
    // A graphic rectangle: dashed, no fill.
    assert!(text.contains("(rectangle"));
    assert!(text.contains("(start 170 20)"));
    assert!(text.contains("(end 210 60)"));
    assert!(text.contains("(type dash)"));
    assert!(text.contains("(type none)"));
    // Deterministic across builds.
    let mut w2 = writer();
    w2.add_zone_rect(p(170.0, 20.0), p(210.0, 60.0));
    assert_eq!(text, show(&w2.serialize()));
}

#[test]
fn place_symbol_requires_registered_lib() {
    let mut w = writer();
    assert!(!w.has_lib_symbol("Device:R_Small"));
    let err = w
        .place_symbol(&PlaceSymbol::new("Device:R_Small", "R1", "1k", p(0.0, 0.0)))
        .unwrap_err();
    assert!(err.text().contains("not registered"));
    assert_eq!(err.text(), "symbol \"Device:R_Small\" not registered");
    assert_eq!(err.lib_id, "Device:R_Small");
}

#[test]
fn power_lib_ids_deduplicate_on_sanitize_collision() {
    let mut w = writer();
    assert_eq!(w.add_power_symbol("N$1", p(0.0, 0.0), false), "#PWR01");
    assert_eq!(w.add_power_symbol("N 1", p(2.54, 0.0), false), "#PWR02");
    let text = show(&w.serialize());
    assert!(text.contains(&format!("\"{POWER_LIB_NICKNAME}:N_1\"")));
    assert!(text.contains(&format!("\"{POWER_LIB_NICKNAME}:N_1_2\"")));
    // Both Values keep the EXACT net names (the Value creates the net).
    assert!(text.contains("\"N$1\""));
    assert!(text.contains("\"N 1\""));
}

#[test]
fn rails_are_told_apart_by_their_symbols() {
    let mut w = writer();
    assert_eq!(w.power_lib_id("N$1"), format!("{POWER_LIB_NICKNAME}:N_1"));
    assert_eq!(w.power_lib_id("N 1"), format!("{POWER_LIB_NICKNAME}:N_1_2"));
    assert_eq!(w.power_lib_id("N#1"), format!("{POWER_LIB_NICKNAME}:N_1_3"));
    assert_eq!(w.power_lib_id("N 1"), format!("{POWER_LIB_NICKNAME}:N_1_2"));
    assert_eq!(w.power_lib_id("N$1"), format!("{POWER_LIB_NICKNAME}:N_1"));
}

#[test]
fn a_rail_keeps_its_symbol() {
    let mut w = writer();
    for net in ["N$1", "N 1", "N#1", "N$1", "N_1_2", "N 1"] {
        w.add_power_symbol(net, p(0.0, 0.0), false);
    }
    let text = show(&w.serialize());
    let count = |id: &str| text.matches(&format!("(lib_id \"{POWER_LIB_NICKNAME}:{id}\")")).count();
    assert_eq!((count("N_1"), count("N_1_2"), count("N_1_3"), count("N_1_2_2")), (2, 2, 1, 1));
}

#[test]
fn render_justify_flips_at_180_and_mirror() {
    assert_eq!(render_justify(&["left"], 0, None), vec!["left"]);
    assert_eq!(render_justify(&["left"], 180, None), vec!["right"]);
    assert_eq!(render_justify(&["left", "bottom"], 180, None), vec!["right", "top"]);
    assert_eq!(render_justify(&["left"], 0, Some(MirrorAxis::Y)), vec!["right"]);
    assert_eq!(render_justify(&["left"], 180, Some(MirrorAxis::Y)), vec!["left"]);
    assert_eq!(render_justify(&["bottom"], 0, Some(MirrorAxis::X)), vec!["top"]);
}

#[test]
fn flag_label_justify_is_horizontal_only() {
    assert_eq!(flag_label_justify(0), vec!["left"]);
    assert_eq!(flag_label_justify(180), vec!["right"]);
    assert_eq!(flag_label_justify(90), vec!["left"]);
    assert_eq!(flag_label_justify(270), vec!["right"]);
    assert!(!flag_label_justify(0).contains(&"bottom"));
    assert!(!flag_label_justify(180).contains(&"bottom"));
    // Local labels keep the `bottom` component (text above the wire).
    assert!(label_justify(0).contains(&"bottom"));
}

#[test]
fn sheet_pin_rotation_and_justify() {
    let mut w = writer();
    w.add_sheet_ref(&SheetRef {
        file_name: s("sub.kicad_sch"),
        title: s("Sub"),
        at: p(152.4, 63.5),
        size: p(25.4, 12.7),
        pins: vec![
            SheetRefPin {
                name: s("L"),
                direction: PortDirection::Input,
                at: p(152.4, 66.04),
            },
            SheetRefPin {
                name: s("R"),
                direction: PortDirection::Output,
                at: p(177.8, 66.04),
            },
        ],
        page: s("2"),
    });
    let text = show(&w.serialize());
    // Left edge pin: rotation 180, justify left; right edge: 0, right.
    assert!(text.contains("(at 152.4 66.04 180)"));
    assert!(text.contains("(at 177.8 66.04 0)"));
    assert!(text.contains("(page \"2\")"));
    assert!(text.contains("\"Sheetname\""));
    assert!(text.contains("\"Sheetfile\""));
}

#[test]
fn angles_and_edges_of_texts_and_pins() {
    assert_eq!(text_angle(0), 0);
    assert_eq!(text_angle(90), 270);
    assert_eq!(text_angle(-90), 90);
    assert_eq!(text_angle(180), 0);
    let edge = |x: f64, y: f64| infer_sheet_pin_rotation(p(x, y), iu(10.0), iu(20.0), iu(30.0));
    assert_eq!(edge(10.0, 25.0), 180);
    assert_eq!(edge(40.0, 25.0), 0);
    assert_eq!(edge(20.0, 20.0), 90);
    assert_eq!(edge(20.0, 30.0), 270);
}

#[test]
fn every_element_has_its_place_in_the_document() {
    let mut w = writer();
    w.add_text("note", p(1.0, 2.0), 0);
    w.add_zone_title("Zone", p(1.0, 2.0));
    w.add_junction(p(3.0, 4.0));
    w.add_no_connect(p(5.0, 6.5));
    w.add_global_label("G", p(1.0, 1.0), 180, PortDirection::Output);
    w.add_hier_label("H", PortDirection::Input, p(1.0, 1.0), 0);
    let text = show(&w.serialize());
    let order = [
        "(junction (at 3 4)",
        "(no_connect (at 5 6.5)",
        "(global_label \"G\" (shape output) (at 1 1 180)",
        "(hierarchical_label \"H\" (shape input) (at 1 1 0)",
        "(text \"note\"",
        "(text \"Zone\"",
    ];
    let mut last = 0;
    for part in order {
        let at = text.find(part).unwrap_or_else(|| panic!("missing {part}"));
        assert!(at > last, "{part} out of order");
        last = at;
    }
    assert_eq!(w.path_prefix_public(), format!("/{}", w.root_uuid()));
}

#[test]
fn lengths_are_written_as_short_as_they_can_be() {
    let mm = |v: Iu| -> String { to_mm_text(v).into_iter().collect() };
    assert_eq!(mm(609600), "60.96");
    assert_eq!(mm(-12700), "-1.27");
    assert_eq!(mm(1700000), "170");
    assert_eq!(mm(1), "0.0001");
    assert_eq!(mm(0), "0");
    assert_eq!(mm(-5), "-0.0005");
}

// ------------------------------------------------------------------ project file

#[test]
fn kicad_pro_created_from_scratch() {
    let text = kicad_pro_content(None, "blinky").unwrap();
    let v: serde_json::Value = serde_json::from_str(&text).unwrap();
    assert_eq!(v["meta"]["filename"], "blinky.kicad_pro");
    assert_eq!(v["erc"]["rule_severities"]["lib_symbol_issues"], "ignore");
    assert_eq!(v["erc"]["rule_severities"]["lib_symbol_mismatch"], "ignore");
    assert_eq!(v["erc"]["rule_severities"]["footprint_link_issues"], "ignore");
    assert_eq!(v["meta"]["version"], 3);
    assert!(text.ends_with("}\n"));
}

#[test]
fn kicad_pro_patch_preserves_existing_content() {
    let existing = r#"{
        "meta": {"filename": "layout.kicad_pro", "version": 3},
        "board": {"design_settings": {"rules": {"min_clearance": 0.1}}},
        "erc": {"rule_severities": {"pin_not_connected": "error"}}
    }"#;
    let text = kicad_pro_content(Some(existing), "layout").unwrap();
    let v: serde_json::Value = serde_json::from_str(&text).unwrap();
    // Existing keys survive.
    assert_eq!(v["board"]["design_settings"]["rules"]["min_clearance"], 0.1);
    assert_eq!(v["erc"]["rule_severities"]["pin_not_connected"], "error");
    // Our overrides are added.
    assert_eq!(v["erc"]["rule_severities"]["lib_symbol_issues"], "ignore");
    // Patching again changes nothing.
    assert_eq!(kicad_pro_content(Some(&text), "layout").unwrap(), text);
}

#[test]
fn projects_that_cannot_be_patched_are_refused() {
    let fails = |text: &str| kicad_pro_content(Some(text), "x").unwrap_err();
    assert_eq!(fails("{"), ProjectError::Unreadable);
    assert_eq!(fails("[]"), ProjectError::RootNotObject);
    assert_eq!(fails("{\"erc\": 1}"), ProjectError::ErcNotObject);
    assert_eq!(
        fails("{\"erc\": {\"rule_severities\": []}}"),
        ProjectError::SeveritiesNotObject
    );
}

// ------------------------------------------------------------------ command line

#[test]
fn output_paths_are_files_or_directories() {
    let arg = |e: &str| Some(OutputArg { ending: Some(s(e)) });
    assert!(matches!(choose_output(&None, &None), Ok(Output::Unsaid)));
    assert!(matches!(choose_output(&arg("kicad_sch"), &None), Ok(Output::AsGiven)));
    match choose_output(&arg("d"), &Some(s("top"))) {
        Ok(Output::InDirectory { file }) => assert_eq!(file, "top.kicad_sch"),
        other => panic!("{other:?}"),
    }
    assert!(choose_output(&Some(OutputArg { ending: None }), &None).is_err());
}

#[test]
fn any_finding_that_counts_fails_the_check() {
    let v = |severity: &str, excluded: bool| Violation { severity: s(severity), excluded };
    let found = tally(&vec![v("error", true), v("warning", false), v("info", false)]);
    assert_eq!((found.errors, found.warnings), (0, 2));
    assert_eq!(verdict(found), Verdict::Failed);
    assert_eq!(verdict(tally(&vec![v("error", true), v("warning", true)])), Verdict::Clean);
    assert_eq!(verdict(tally(&vec![v("error", false)])), Verdict::Failed);
    assert_eq!(verdict(tally(&vec![])), Verdict::Clean);
}

#[test]
fn contact_is_mutual_and_a_crossing_is_none() {
    let spans = [
        span(0.0, 0.0, 10.0, 0.0),
        span(5.0, -5.0, 5.0, 5.0),
        span(10.0, 0.0, 10.0, 5.0),
        span(5.0, 0.0, 20.0, 0.0),
        span(20.0, 2.54, 0.0, 2.54),
    ];
    for a in &spans {
        for b in &spans {
            assert_eq!(segs_touch_forbidden(a, b), segs_touch_forbidden(b, a));
            assert_eq!(segs_cross_frank(a, b), segs_cross_frank(b, a));
            assert!(!(segs_cross_frank(a, b) && segs_touch_forbidden(a, b)));
        }
    }
    assert!(segs_cross_frank(&spans[0], &spans[1]));
    assert!(segs_touch_forbidden(&spans[0], &spans[2]));
    assert!(segs_touch_forbidden(&spans[0], &spans[3]));
}

#[test]
fn turns_and_mirrors_undo() {
    for rotation in [0, 90, 180, 270, 450, -90] {
        let (x, y) = rotate_ccw(12700, -25400, rotation);
        assert_eq!(rotate_ccw(x, y, -rotation), (12700, -25400));
    }
    assert_eq!(rotate_ccw(1, 0, 90), (0, 1));
    assert_eq!(rotate_ccw(1, 2, 45), (1, 2));
    for mirror in [None, Some(MirrorAxis::X), Some(MirrorAxis::Y)] {
        let (x, y) = apply_mirror(12700, -25400, mirror);
        assert_eq!(apply_mirror(x, y, mirror), (12700, -25400));
    }
    assert_eq!(apply_mirror(1, 2, Some(MirrorAxis::X)), (1, -2));
}

#[test]
fn remarks_in_words() {
    let said = [
        (
            Warning::BoxSymbol { refdes: s("U1"), path: Text::of("top.u") },
            "component U1 (top.u) has no symbol; generated a box symbol from its pads",
        ),
        (
            Warning::DenseSheet { title: Text::of("adc"), count: 41, max: 40 },
            "sheet \"adc\": 41 components exceed max-parts-per-sheet (40) — automatic split is out of scope, the sheet will be dense",
        ),
        (
            Warning::ManualMultiUnit { key: s("comp:R1@U2") },
            "manual position comp:R1@U2: multi-unit symbols are not supported yet — ignored",
        ),
        (
            Warning::ManualNotFound { key: s("comp:R9") },
            "manual position comp:R9: component not found — ignored",
        ),
        (
            Warning::ManualSnapped { refdes: s("R1"), dx: 6303, dy: -127 },
            "manual position of R1 snapped onto the grid (0.630 mm, -0.013 mm)",
        ),
        (
            Warning::ManualTranslated { dx: iu(-12.7), dy: iu(101.604) },
            "manual positions translated uniformly by (-12.70 mm, 101.60 mm) to fit the page (relative geometry preserved)",
        ),
        (
            Warning::AnchorNotFound { anchor: s("U7"), refdes: s("C1") },
            "anchor \"U7\" of C1 not found on its sheet — placed by flow",
        ),
        (
            Warning::AnchorChain { refdes: s("C1") },
            "unresolved anchor chain for C1 — treated as a major",
        ),
        (Warning::Overlap { refdes: s("C1") }, "unresolved overlap for C1 (kept in place)"),
        (
            Warning::PowerStubOverlap { net: s("VDD"), refdes: s("U1") },
            "power stub VDD of U1 placed with visual overlap (electrically clean)",
        ),
        (
            Warning::PowerStubContact { net: s("VDD"), refdes: s("U1") },
            "power stub VDD of U1 placed with residual contact — REVIEW REQUIRED",
        ),
        (
            Warning::AnalogBroken { net: s("FILT"), wired: 2, total: 13 },
            "analog net FILT: 2/13 endpoint(s) wired continuously, the rest fell back to labels (no clean route)",
        ),
        (Warning::RootPorts, "ports declared on the root sheet — ignored"),
        (
            Warning::PortFallback { net: s("SCK") },
            "port \"SCK\" has no internal anchor — edge-column fallback",
        ),
        (
            Warning::TextOverlap { refdes: s("R1") },
            "texts of R1 kept at their canonical spot despite an overlap",
        ),
    ];
    for (w, words) in &said {
        assert_eq!(w.text(), *words);
    }
    let lost = |name: &str, first: bool| Warning::Stranded { refdes: s(name), first };
    let all = [
        lost("C1", true),
        lost("C2", false),
        lost("C3", true),
        Warning::RootPorts,
        lost("C4", true),
        lost("C5", false),
    ];
    assert_eq!(
        warning_lines(&all),
        vec![
            "unresolved anchor chain for: C1, C2",
            "unresolved anchor chain for: C3",
            "ports declared on the root sheet — ignored",
            "unresolved anchor chain for: C4, C5",
        ]
    );
    assert_eq!(lost("C1", true).text(), "unresolved anchor chain for: C1");
}

#[test]
fn errors_in_words() {
    assert_eq!(
        BuildError::NoDesignator { path: s("top.r") }.text(),
        "component top.r has no reference designator"
    );
    assert_eq!(
        BuildError::UnreadableSymbol { path: s("top.r") }.text(),
        "invalid symbol for component top.r: failed to parse symbol s-expression"
    );
    for (why, words) in [
        (SymbolError::NotAList, "symbol block is not a list"),
        (SymbolError::NotASymbol, "expected a (symbol ...) block"),
        (SymbolError::NoName, "(symbol ...) block has no name"),
        (SymbolError::NameNotString, "(symbol ...) name is not a string"),
    ] {
        assert_eq!(why.text(), words);
        assert_eq!(
            BuildError::InvalidSymbol { path: s("top.r"), why }.text(),
            format!("invalid symbol for component top.r: {words}")
        );
    }
    assert_eq!(
        BuildError::NoPads { refdes: s("R1") }.text(),
        "component R1 has neither symbol nor pads"
    );
    for (why, words) in [
        (ProjectError::Unreadable, "failed to parse existing .kicad_pro JSON"),
        (ProjectError::RootNotObject, ".kicad_pro root is not a JSON object"),
        (ProjectError::ErcNotObject, ".kicad_pro `erc` is not a JSON object"),
        (
            ProjectError::SeveritiesNotObject,
            ".kicad_pro `erc.rule_severities` is not a JSON object",
        ),
    ] {
        assert_eq!(why.text(), words);
    }
}
