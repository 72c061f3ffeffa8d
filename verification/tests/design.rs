//! Whole designs: reading, planning, placing, routing and writing them.

use pcb_schematic::anchors::resolve_groups;
use pcb_schematic::canvas::{Canvas, Scene};
use pcb_schematic::compose::place_satellites;
use pcb_schematic::config::SchConfig;
use pcb_schematic::extract::{convert_manual_position, visual_bounds, BuildError};
use pcb_schematic::filters::line_column;
use pcb_schematic::generate::{generate_schematic, GeneratedSchematic, SchOptions};
use pcb_schematic::geometry::{parse_lib_symbol, BBox, MirrorAxis};
use pcb_schematic::glyphs::ref_text_box;
use pcb_schematic::keepout::power_keepouts;
use pcb_schematic::model::{DesignModel, NetClass, NetModel, Role};
use pcb_schematic::orientation::probe_routable;
use pcb_schematic::pins::net_endpoints;
use pcb_schematic::place::{place_sheet, PlacedComp, SheetModel};
use pcb_schematic::registry::Reg;
use pcb_schematic::roles::capacitance;
use pcb_schematic::route::route_sheet;
use pcb_schematic::schematic::{
    AttributeValue, Child, Instance, InstanceKind, Net, NetPort, Position, Schematic,
    SymbolPosition, SymbolSource,
};
use pcb_schematic::sexpr::Sexpr;
use pcb_schematic::sheets::plan_sheets;
use pcb_schematic::text::to_mm_text;
use pcb_schematic::textpass::place_instance_texts;
use pcb_schematic::texts::{power_stub_corridors, Board};
use pcb_schematic::units::{Iu, Point, EPS};
use pcb_schematic::warning::Warning;
use pcb_schematic::wiring::{point_on_seg, segs_touch_forbidden, Span};
use pcb_schematic::wording::warning_lines;

// ------------------------------------------------------------------ trees

fn iu(v: f64) -> Iu {
    (v * 10000.0).round() as Iu
}

fn mm(v: Iu) -> f64 {
    v as f64 / 10000.0
}

fn s(text: &str) -> String {
    text.to_string()
}

fn read(text: &str) -> Sexpr {
    let chars: Vec<char> = text.chars().collect();
    let mut at = 0;
    read_from(&chars, &mut at)
}

fn read_from(c: &[char], at: &mut usize) -> Sexpr {
    while c[*at].is_whitespace() {
        *at += 1;
    }
    if c[*at] == '(' {
        *at += 1;
        let mut items = Vec::new();
        loop {
            while c[*at].is_whitespace() {
                *at += 1;
            }
            if c[*at] == ')' {
                *at += 1;
                return Sexpr::List(items);
            }
            items.push(read_from(c, at));
        }
    }
    if c[*at] == '"' {
        *at += 1;
        let mut t = String::new();
        while c[*at] != '"' {
            t.push(c[*at]);
            *at += 1;
        }
        *at += 1;
        return Sexpr::Str(t);
    }
    let mut t = String::new();
    while *at < c.len() && !c[*at].is_whitespace() && c[*at] != '(' && c[*at] != ')' {
        t.push(c[*at]);
        *at += 1;
    }
    if let Ok(v) = t.parse::<i64>() {
        return Sexpr::Int(v);
    }
    if let Ok(v) = t.parse::<f64>() {
        return Sexpr::Num(iu(v));
    }
    Sexpr::Symbol(t)
}

/// The tree on one line.
fn show(node: &Sexpr) -> String {
    match node {
        Sexpr::List(items) => {
            let inner: Vec<String> = items.iter().map(show).collect();
            format!("({})", inner.join(" "))
        }
        Sexpr::Symbol(t) => t.clone(),
        Sexpr::Str(t) => format!("\"{}\"", t.replace('\\', "\\\\").replace('"', "\\\"")),
        Sexpr::Int(v) => v.to_string(),
        Sexpr::Num(v) => to_mm_text(*v).into_iter().collect(),
    }
}

fn items(node: &Sexpr) -> &[Sexpr] {
    match node {
        Sexpr::List(items) => items,
        _ => &[],
    }
}

fn tag(node: &Sexpr) -> &str {
    match items(node).first() {
        Some(Sexpr::Symbol(t)) => t,
        _ => "",
    }
}

fn child<'a>(node: &'a Sexpr, name: &str) -> Option<&'a Sexpr> {
    items(node).iter().find(|n| tag(n) == name)
}

fn number(node: &Sexpr) -> f64 {
    match node {
        Sexpr::Int(v) => *v as f64,
        Sexpr::Num(v) => mm(*v),
        _ => f64::NAN,
    }
}

fn text(node: &Sexpr) -> &str {
    match node {
        Sexpr::Str(t) => t,
        _ => "",
    }
}

fn xy(node: &Sexpr) -> (f64, f64) {
    (number(&items(node)[1]), number(&items(node)[2]))
}

/// The elements of a document with this tag.
fn elements<'a>(doc: &'a Sexpr, name: &str) -> Vec<&'a Sexpr> {
    items(doc).iter().filter(|n| tag(n) == name).collect()
}

// ------------------------------------------------------------------ designs

const R_SMALL: &str = r#"(symbol "R_Small"
    (symbol "R_Small_0_1"
        (rectangle (start -0.762 1.778) (end 0.762 -1.778)
            (stroke (width 0.2032) (type default)) (fill (type none))))
    (symbol "R_Small_1_1"
        (pin passive line (at 0 2.54 270) (length 0.762)
            (name "" (effects (font (size 1.27 1.27))))
            (number "1" (effects (font (size 1.27 1.27)))))
        (pin passive line (at 0 -2.54 90) (length 0.762)
            (name "" (effects (font (size 1.27 1.27))))
            (number "2" (effects (font (size 1.27 1.27)))))))"#;

/// Six-pin box (3 pins per side), pin 1 declared input.
const BOX6: &str = r#"(symbol "Box6"
    (symbol "Box6_0_1"
        (rectangle (start -5.08 5.08) (end 5.08 -5.08)
            (stroke (width 0.254) (type default)) (fill (type background))))
    (symbol "Box6_1_1"
        (pin input line (at -7.62 2.54 0) (length 2.54)
            (name "IN" (effects (font (size 1.27 1.27))))
            (number "1" (effects (font (size 1.27 1.27)))))
        (pin passive line (at -7.62 0 0) (length 2.54)
            (name "P2" (effects (font (size 1.27 1.27))))
            (number "2" (effects (font (size 1.27 1.27)))))
        (pin power_in line (at -7.62 -2.54 0) (length 2.54)
            (name "VCC" (effects (font (size 1.27 1.27))))
            (number "3" (effects (font (size 1.27 1.27)))))
        (pin output line (at 7.62 2.54 180) (length 2.54)
            (name "OUT" (effects (font (size 1.27 1.27))))
            (number "4" (effects (font (size 1.27 1.27)))))
        (pin passive line (at 7.62 0 180) (length 2.54)
            (name "P5" (effects (font (size 1.27 1.27))))
            (number "5" (effects (font (size 1.27 1.27)))))
        (pin power_in line (at 7.62 -2.54 180) (length 2.54)
            (name "GND" (effects (font (size 1.27 1.27))))
            (number "6" (effects (font (size 1.27 1.27)))))))"#;

fn blank(kind: InstanceKind, path: Vec<String>) -> Instance {
    Instance {
        kind,
        path,
        children: vec![],
        reference_designator: None,
        symbol: None,
        symbol_path: None,
        component_type: None,
        prefix: None,
        role: None,
        anchor: None,
        side: None,
        edge: None,
        footprint: None,
        mpn: None,
        value: None,
        value_attr: None,
        capacitance: None,
        datasheet: None,
        description: None,
        dnp: false,
        pads: None,
        embed: false,
        collapse: false,
        symbol_positions: vec![],
    }
}

fn new_design() -> Schematic {
    Schematic { root: 0, instances: vec![blank(InstanceKind::Module, vec![])], nets: vec![] }
}

fn add_child(sch: &mut Schematic, parent: usize, name: &str, kind: InstanceKind) -> usize {
    let mut path = sch.instances[parent].path.clone();
    path.push(s(name));
    let at = sch.instances.len();
    sch.instances.push(blank(kind, path));
    sch.instances[parent].children.push(Child { name: s(name), instance: at });
    at
}

fn add_module(sch: &mut Schematic, parent: usize, name: &str) -> usize {
    add_child(sch, parent, name, InstanceKind::Module)
}

/// A component with (signal, pad) pins; its designator is its name.
fn add_component(
    sch: &mut Schematic,
    parent: usize,
    name: &str,
    symbol: Option<&str>,
    pins: &[(&str, &str)],
    value: Option<&str>,
    kind: Option<&str>,
) -> usize {
    let at = add_child(sch, parent, name, InstanceKind::Component);
    let inst = &mut sch.instances[at];
    inst.reference_designator = Some(s(name));
    inst.symbol = symbol.map(|t| SymbolSource { text: s(t), tree: Some(read(t)) });
    inst.value = value.map(s);
    inst.value_attr = value.map(s);
    inst.component_type = kind.map(s);
    for (signal, pad) in pins {
        let port = add_child(sch, at, signal, InstanceKind::Port);
        sch.instances[port].pads =
            Some(AttributeValue::List(vec![AttributeValue::Text(s(pad))]));
    }
    at
}

fn add_r(sch: &mut Schematic, parent: usize, name: &str, value: &str) -> usize {
    let pins = [("1", "1"), ("2", "2")];
    add_component(sch, parent, name, Some(R_SMALL), &pins, Some(value), Some("resistor"))
}

fn add_c(sch: &mut Schematic, parent: usize, name: &str, value: &str) -> usize {
    let pins = [("1", "1"), ("2", "2")];
    add_component(sch, parent, name, Some(R_SMALL), &pins, Some(value), Some("capacitor"))
}

fn add_box(sch: &mut Schematic, parent: usize, name: &str, pins: &[(&str, &str)]) -> usize {
    add_component(sch, parent, name, None, pins, None, None)
}

fn find_instance(sch: &Schematic, path: &[&str]) -> usize {
    sch.instances
        .iter()
        .position(|i| i.path.iter().map(String::as_str).eq(path.iter().copied()))
        .unwrap_or_else(|| panic!("no instance {path:?}"))
}

/// A net through ports given by their paths.
fn add_net(sch: &mut Schematic, kind: &str, name: &str, ports: &[&[&str]]) {
    let ports = ports
        .iter()
        .map(|path| NetPort {
            port: find_instance(sch, path),
            owner: Some(find_instance(sch, &path[..path.len() - 1])),
        })
        .collect();
    sch.nets.push(Net { name: s(name), kind: s(kind), ports });
}

/// VCC - R1 - MID - R2 - GND.
fn divider() -> Schematic {
    let mut sch = new_design();
    for name in ["R1", "R2"] {
        add_r(&mut sch, 0, name, "10k");
    }
    add_net(&mut sch, "Power", "VCC", &[&["R1", "1"]]);
    add_net(&mut sch, "Net", "MID", &[&["R1", "2"], &["R2", "1"]]);
    add_net(&mut sch, "Ground", "GND", &[&["R2", "2"]]);
    sch
}

/// Two input filters, each a series resistor and a shunt capacitor, into one box.
fn diff_filter() -> Schematic {
    let mut sch = new_design();
    add_box(
        &mut sch,
        0,
        "U1",
        &[("AINP", "1"), ("AINN", "2"), ("VDD", "3"), ("GND", "4")],
    );
    add_r(&mut sch, 0, "RP", "6k");
    add_r(&mut sch, 0, "RN", "6k");
    add_c(&mut sch, 0, "CP", "100pF");
    add_c(&mut sch, 0, "CN", "100pF");
    add_net(&mut sch, "Net", "AINP_EXT", &[&["RP", "1"]]);
    add_net(&mut sch, "Net", "AINN_EXT", &[&["RN", "1"]]);
    add_net(&mut sch, "Net", "AINP_FILT", &[&["RP", "2"], &["CP", "1"], &["U1", "AINP"]]);
    add_net(&mut sch, "Net", "AINN_FILT", &[&["RN", "2"], &["CN", "1"], &["U1", "AINN"]]);
    add_net(&mut sch, "Power", "VDD", &[&["U1", "VDD"]]);
    add_net(&mut sch, "Ground", "GND", &[&["U1", "GND"], &["CP", "2"], &["CN", "2"]]);
    sch
}

/// A box with two supply pins split by a signal pin, and two ground pins side by side.
fn power_bank() -> Schematic {
    let mut sch = new_design();
    add_box(
        &mut sch,
        0,
        "U1",
        &[
            ("VDDA", "1"),
            ("SIG", "2"),
            ("VDDB", "3"),
            ("OUT", "4"),
            ("GNDA", "5"),
            ("GNDB", "6"),
        ],
    );
    add_net(&mut sch, "Power", "VDD", &[&["U1", "VDDA"], &["U1", "VDDB"]]);
    add_net(&mut sch, "Net", "SIG", &[&["U1", "SIG"]]);
    add_net(&mut sch, "Net", "OUT", &[&["U1", "OUT"]]);
    add_net(&mut sch, "Ground", "GND", &[&["U1", "GNDA"], &["U1", "GNDB"]]);
    sch
}

/// A box with a signal input, and a capacitor between its two rails.
fn decoupled_adc() -> Schematic {
    let mut sch = new_design();
    add_box(&mut sch, 0, "U1", &[("IN", "1"), ("VDD", "2"), ("GND", "3")]);
    add_c(&mut sch, 0, "C1", "100nF");
    add_net(&mut sch, "Net", "IN", &[&["U1", "IN"]]);
    add_net(&mut sch, "Power", "VDD", &[&["U1", "VDD"], &["C1", "1"]]);
    add_net(&mut sch, "Ground", "GND", &[&["U1", "GND"], &["C1", "2"]]);
    sch
}

/// Two boxes on one signal with a pull-up.
fn digital_bus() -> Schematic {
    let mut sch = new_design();
    for name in ["U1", "U2"] {
        add_box(&mut sch, 0, name, &[("BUS", "1"), ("VCC", "2"), ("GND", "3")]);
    }
    add_r(&mut sch, 0, "RP", "10k");
    add_net(&mut sch, "Net", "BUS", &[&["U1", "BUS"], &["U2", "BUS"], &["RP", "1"]]);
    add_net(&mut sch, "Power", "VCC", &[&["U1", "VCC"], &["U2", "VCC"], &["RP", "2"]]);
    add_net(&mut sch, "Ground", "GND", &[&["U1", "GND"], &["U2", "GND"]]);
    sch
}

/// A box behind a series resistor with a shunt capacitor.
fn analog_filter() -> Schematic {
    let mut sch = new_design();
    add_box(&mut sch, 0, "U1", &[("AIN", "1"), ("VCC", "2"), ("GND", "3")]);
    add_r(&mut sch, 0, "RF", "1k");
    add_c(&mut sch, 0, "CF", "100pF");
    add_net(&mut sch, "Net", "AIN_EXT", &[&["RF", "1"]]);
    add_net(&mut sch, "Net", "FILT", &[&["U1", "AIN"], &["RF", "2"], &["CF", "1"]]);
    add_net(&mut sch, "Power", "VCC", &[&["U1", "VCC"]]);
    add_net(&mut sch, "Ground", "GND", &[&["U1", "GND"], &["CF", "2"]]);
    sch
}

/// A small module that is drawn inline, and a bigger one with a sheet of its own.
fn hierarchical_design() -> Schematic {
    let mut sch = new_design();
    let div = add_module(&mut sch, 0, "div");
    let big = add_module(&mut sch, 0, "big");
    for name in ["R1", "R2"] {
        add_r(&mut sch, div, name, "10k");
    }
    add_component(
        &mut sch,
        big,
        "U1",
        Some(BOX6),
        &[("IN", "1"), ("P2", "2"), ("VCC", "3"), ("OUT", "4"), ("P5", "5"), ("GND", "6")],
        Some("IC"),
        None,
    );
    for name in ["RA", "RB", "RC", "RD"] {
        add_r(&mut sch, big, name, "1k");
    }
    add_net(&mut sch, "Power", "VCC", &[&["div", "R1", "1"], &["big", "U1", "VCC"]]);
    add_net(&mut sch, "Ground", "GND", &[&["div", "R2", "2"], &["big", "U1", "GND"]]);
    add_net(
        &mut sch,
        "Net",
        "SIG",
        &[&["div", "R1", "2"], &["div", "R2", "1"], &["big", "U1", "IN"]],
    );
    add_net(&mut sch, "Net", "CHAIN", &[&["big", "U1", "OUT"], &["big", "RA", "1"]]);
    add_net(&mut sch, "Net", "C2", &[&["big", "RA", "2"], &["big", "RB", "1"]]);
    add_net(&mut sch, "Net", "C3", &[&["big", "RB", "2"], &["big", "RC", "1"]]);
    add_net(&mut sch, "Net", "C4", &[&["big", "RC", "2"], &["big", "RD", "1"]]);
    add_net(&mut sch, "Net", "C5", &[&["big", "RD", "2"]]);
    sch
}

/// A box whose two right pins sit one grid step apart, and one left pin.
const TIGHT_PORTS: &str = r#"(symbol "TightPorts"
    (symbol "TightPorts_0_1"
        (rectangle (start -5.08 5.08) (end 5.08 -5.08)
            (stroke (width 0.254) (type default)) (fill (type background))))
    (symbol "TightPorts_1_1"
        (pin input line (at -7.62 0 0) (length 2.54)
            (name "IN" (effects (font (size 1.27 1.27))))
            (number "1" (effects (font (size 1.27 1.27)))))
        (pin output line (at 7.62 1.27 180) (length 2.54)
            (name "CK" (effects (font (size 1.27 1.27))))
            (number "2" (effects (font (size 1.27 1.27)))))
        (pin output line (at 7.62 0 180) (length 2.54)
            (name "RST" (effects (font (size 1.27 1.27))))
            (number "3" (effects (font (size 1.27 1.27)))))))"#;

/// The corner of a converter: two filtered inputs crowd an output with a pull-up.
fn adc_dout_congested() -> Schematic {
    let mut sch = new_design();
    add_box(
        &mut sch,
        0,
        "U1",
        &[
            ("AINP", "1"),
            ("AINN", "2"),
            ("DOUT", "3"),
            ("GND", "4"),
            ("VDD", "5"),
            ("OUT", "6"),
        ],
    );
    add_r(&mut sch, 0, "RP", "6k");
    add_r(&mut sch, 0, "RN", "6k");
    add_c(&mut sch, 0, "CP", "100pF");
    add_c(&mut sch, 0, "CN", "100pF");
    add_r(&mut sch, 0, "RPU", "10k");
    add_net(&mut sch, "Net", "AINP_EXT", &[&["RP", "1"]]);
    add_net(&mut sch, "Net", "AINN_EXT", &[&["RN", "1"]]);
    add_net(&mut sch, "Net", "AINP_FILT", &[&["RP", "2"], &["CP", "1"], &["U1", "AINP"]]);
    add_net(&mut sch, "Net", "AINN_FILT", &[&["RN", "2"], &["CN", "1"], &["U1", "AINN"]]);
    add_net(&mut sch, "Net", "MISO", &[&["U1", "DOUT"], &["RPU", "1"]]);
    add_net(&mut sch, "Power", "VDD", &[&["U1", "VDD"], &["RPU", "2"]]);
    add_net(&mut sch, "Ground", "GND", &[&["U1", "GND"], &["CP", "2"], &["CN", "2"]]);
    sch
}

/// A box whose pulled-up output leaves below a filtered input.
fn adc_pullup_over_analog() -> Schematic {
    let mut sch = new_design();
    add_box(
        &mut sch,
        0,
        "U1",
        &[("AIN", "1"), ("DOUT", "2"), ("VDD", "3"), ("GND", "4")],
    );
    add_r(&mut sch, 0, "RIN", "1k");
    add_c(&mut sch, 0, "CIN", "100pF");
    add_r(&mut sch, 0, "RPU", "10k");
    add_net(&mut sch, "Net", "AIN_EXT", &[&["RIN", "1"]]);
    add_net(&mut sch, "Net", "AIN_FILT", &[&["RIN", "2"], &["CIN", "1"], &["U1", "AIN"]]);
    add_net(&mut sch, "Net", "MISO", &[&["U1", "DOUT"], &["RPU", "1"]]);
    add_net(&mut sch, "Power", "VDD", &[&["U1", "VDD"], &["RPU", "2"]]);
    add_net(&mut sch, "Ground", "GND", &[&["U1", "GND"], &["CIN", "2"]]);
    sch
}

/// A box with two supply pins on one edge, split by two signal pins.
fn split_rail_ic() -> Schematic {
    let mut sch = new_design();
    add_box(
        &mut sch,
        0,
        "U1",
        &[
            ("IN1", "1"),
            ("IN2", "2"),
            ("IN3", "3"),
            ("IN4", "4"),
            ("REFP", "5"),
            ("REFN", "6"),
            ("SCK", "7"),
            ("VDDPIN", "8"),
        ],
    );
    for signal in ["IN1", "IN2", "IN3", "IN4", "REFN", "SCK"] {
        add_net(&mut sch, "Net", signal, &[&["U1", signal]]);
    }
    add_net(&mut sch, "Power", "VDD", &[&["U1", "REFP"], &["U1", "VDDPIN"]]);
    sch
}

/// A box with two lone signals of different name lengths on each edge.
fn sibling_ports_ic() -> Schematic {
    let mut sch = new_design();
    let pins = [("A_LONG", "1"), ("B", "2"), ("CLK", "3"), ("PDRST", "4")];
    add_box(&mut sch, 0, "U1", &pins);
    for (signal, _) in pins {
        add_net(&mut sch, "Net", signal, &[&["U1", signal]]);
    }
    sch
}

/// Two lone signals that leave a box one grid step apart.
fn sibling_ports_collide() -> Schematic {
    let mut sch = new_design();
    let pins = [("IN", "1"), ("CLK", "2"), ("PDRESET", "3")];
    add_component(&mut sch, 0, "U1", Some(TIGHT_PORTS), &pins, Some("IC"), None);
    for (signal, _) in pins {
        add_net(&mut sch, "Net", signal, &[&["U1", signal]]);
    }
    sch
}

fn build(sch: &Schematic) -> DesignModel {
    DesignModel::build(sch, &SchConfig::default()).unwrap()
}

fn net<'a>(m: &'a DesignModel, name: &str) -> &'a NetModel {
    m.nets.iter().find(|n| n.name == name).unwrap()
}

fn comp(m: &DesignModel, path: &str) -> usize {
    m.comps.iter().position(|c| c.path_key.is(path)).unwrap()
}

fn generate(sch: &Schematic, name: &str) -> GeneratedSchematic {
    generate_schematic(sch, &SchOptions::new(name)).unwrap()
}

fn root_text(out: &GeneratedSchematic) -> String {
    show(&out.files[0].content)
}

fn breaks_analog(out: &GeneratedSchematic, name: &str) -> bool {
    out.warnings.iter().any(|w| matches!(w, Warning::AnalogBroken { net, .. } if net == name))
}

// ------------------------------------------------------------------ reading a design

#[test]
fn synthesized_flag_set_only_for_box_symbols() {
    let m = build(&analog_filter());
    assert!(m.comps[comp(&m, "U1")].synthesized, "symbol-less box is synthesized");
    assert!(!m.comps[comp(&m, "RF")].synthesized, "R_Small carries an embedded symbol");
}

#[test]
fn ic_ic_plus_pull_net_is_digital() {
    let m = build(&digital_bus());
    assert!(net(&m, "BUS").digital, "IC-IC + pull must classify digital");
    // The pull resistor itself is recognized.
    assert_eq!(m.comps[comp(&m, "RP")].role, Role::Pull);
}

#[test]
fn rc_filter_net_is_analog() {
    let m = build(&analog_filter());
    assert!(!net(&m, "FILT").digital, "an RC filter node is analog");
    // Series filter R touches no rail -> plain passive, not a pull.
    assert_eq!(m.comps[comp(&m, "RF")].role, Role::Passive);
}

#[test]
fn two_same_polarity_pulls_defeat_digital() {
    // BUS = box U1 + two pull-UPS to VCC: more than one of a kind -> not digital.
    let mut sch = new_design();
    add_box(&mut sch, 0, "U1", &[("BUS", "1"), ("VCC", "2")]);
    add_r(&mut sch, 0, "RP1", "10k");
    add_r(&mut sch, 0, "RP2", "10k");
    add_net(&mut sch, "Net", "BUS", &[&["U1", "BUS"], &["RP1", "1"], &["RP2", "1"]]);
    add_net(&mut sch, "Power", "VCC", &[&["U1", "VCC"], &["RP1", "2"], &["RP2", "2"]]);
    let m = build(&sch);
    assert_eq!(m.comps[comp(&m, "RP1")].role, Role::Pull);
    assert!(!net(&m, "BUS").digital);
}

#[test]
fn real_symbol_endpoint_forces_analog() {
    // BUS between a curated part U1 and a box U2, with a pull.
    let mut sch = new_design();
    let pins = [("1", "1"), ("2", "2")];
    add_component(&mut sch, 0, "U1", Some(R_SMALL), &pins, Some("SENSOR"), None);
    add_box(&mut sch, 0, "U2", &[("BUS", "1"), ("VCC", "2")]);
    add_r(&mut sch, 0, "RP", "10k");
    add_net(&mut sch, "Net", "BUS", &[&["U1", "1"], &["U2", "BUS"], &["RP", "1"]]);
    add_net(&mut sch, "Power", "VCC", &[&["U2", "VCC"], &["RP", "2"]]);
    let m = build(&sch);
    assert!(!m.comps[comp(&m, "U1")].synthesized);
    assert!(!net(&m, "BUS").digital, "a curated non-box endpoint forces analog");
}

#[test]
fn model_extracts_components_nets_and_roles() {
    let m = build(&divider());
    assert_eq!(m.comps.len(), 2);
    assert_eq!(m.comps[0].refdes, "R1");
    // R1 sits between VCC (power) and MID (signal): pull pattern.
    assert_eq!(m.comps[0].role, Role::Pull);
    assert_eq!(m.nets.len(), 3);
    let vcc = net(&m, "VCC");
    assert_eq!(vcc.class, NetClass::Power);
    assert!(!vcc.driven);
}

#[test]
fn manual_position_conversion_inverts_import_mapping() {
    let geom = parse_lib_symbol(read(R_SMALL), None).unwrap().geom;
    // Visual bounds: body x -0.762..0.762, y -1.778..1.778; pins at (0, +-2.54).
    let vb = visual_bounds(&geom);
    assert_eq!(vb.x1, iu(-0.862));
    assert_eq!(vb.y2, iu(2.64));

    let pos = Position { x: iu(55.88), y: iu(8.89), rotation: 270, mirror: None };
    let manual = convert_manual_position(&pos, &geom);
    // Forward mapping: corner = origin + (vb.x1, -vb.y2).
    assert_eq!(manual.at.x, iu(55.88) - vb.x1);
    assert_eq!(manual.at.y, iu(8.89) + vb.y2);
    // Stored rotation is clockwise-positive: 270 -> 90 against the clock.
    assert_eq!(manual.rotation, 90);
}

#[test]
fn capacitance_parsing() {
    let sch = divider();
    // No capacitors in the divider: its value names no capacitance.
    let r1 = find_instance(&sch, &["R1"]);
    assert!(capacitance(&sch.instances[r1]).is_none());
}

#[test]
fn rail_capacitors_are_bulk_from_the_limit_on() {
    let role = |value: &str| {
        let mut sch = new_design();
        add_c(&mut sch, 0, "C1", value);
        add_net(&mut sch, "Power", "VCC", &[&["C1", "1"]]);
        add_net(&mut sch, "Ground", "GND", &[&["C1", "2"]]);
        build(&sch).comps[0].role
    };
    assert_eq!(role("10uF"), Role::Bulk);
    assert_eq!(role("9.9uF"), Role::Decoupling);
    assert_eq!(role("what"), Role::Decoupling);
}

#[test]
fn faulty_components_are_named() {
    let mut sch = divider();
    let r2 = find_instance(&sch, &["R2"]);
    sch.instances[r2].reference_designator = None;
    match DesignModel::build(&sch, &SchConfig::default()) {
        Err(BuildError::NoDesignator { path }) => assert_eq!(path, "R2"),
        other => panic!("{other:?}"),
    }
    sch = divider();
    sch.instances[r2].symbol = Some(SymbolSource { text: s("(symbol"), tree: None });
    match DesignModel::build(&sch, &SchConfig::default()) {
        Err(BuildError::UnreadableSymbol { path }) => assert_eq!(path, "R2"),
        other => panic!("{other:?}"),
    }
    sch.instances[r2].symbol = Some(SymbolSource { text: s("(x)"), tree: Some(read("(x)")) });
    match DesignModel::build(&sch, &SchConfig::default()) {
        Err(BuildError::InvalidSymbol { path, .. }) => assert_eq!(path, "R2"),
        other => panic!("{other:?}"),
    }
    sch.instances[r2].symbol = None;
    sch.instances[r2].children.clear();
    match generate_schematic(&sch, &SchOptions::new("t")) {
        Err(BuildError::NoPads { refdes }) => assert_eq!(refdes, "R2"),
        other => panic!("{other:?}"),
    }
}

#[test]
fn components_and_nets_come_in_natural_order() {
    let mut sch = new_design();
    for name in ["R10", "R2", "R1"] {
        add_r(&mut sch, 0, name, "1k");
    }
    add_net(&mut sch, "Net", "b", &[&["R10", "1"], &["R2", "1"], &["R1", "1"]]);
    add_net(&mut sch, "Net", "A", &[&["R1", "2"], &["R2", "2"]]);
    add_net(&mut sch, "NotConnected", "NC", &[&["R10", "2"]]);
    let m = build(&sch);
    let refs: Vec<&str> = m.comps.iter().map(|c| c.refdes.as_str()).collect();
    assert_eq!(refs, vec!["R1", "R2", "R10"]);
    let names: Vec<&str> = m.nets.iter().map(|n| n.name.as_str()).collect();
    assert_eq!(names, vec!["A", "b"]);
    let ends: Vec<usize> = m.nets[1].endpoints.iter().map(|e| e.comp).collect();
    assert_eq!(ends, vec![0, 1, 2]);
    // Equal symbols share one library id.
    assert_eq!(m.comps[0].geom.lib_id, m.comps[2].geom.lib_id);
    assert_eq!(m.comps[0].geom.lib_id.show(), "zener:R_Small");
}

#[test]
fn outputs_drive_their_rails() {
    let out = r#"(symbol "Reg" (symbol "Reg_1_1"
        (pin power_out line (at 0 2.54 270) (length 0)
            (name "O" (effects)) (number "1" (effects)))
        (pin power_in line (at 0 -2.54 90) (length 0)
            (name "G" (effects)) (number "2" (effects)))))"#;
    let mut sch = new_design();
    add_component(&mut sch, 0, "U1", Some(out), &[("O", "1"), ("G", "2")], None, None);
    add_net(&mut sch, "Power", "VCC", &[&["U1", "O"]]);
    add_net(&mut sch, "Ground", "GND", &[&["U1", "G"]]);
    let m = build(&sch);
    assert!(net(&m, "VCC").driven);
    assert!(!net(&m, "GND").driven);
    // Only the rail that nothing drives is flagged.
    let text = root_text(&generate(&sch, "t"));
    assert_eq!(text.matches("(reference \"#FLG").count(), 1);
}

#[test]
fn outputs_drive_signals_too() {
    let m = build(&hierarchical_design());
    assert_eq!(net(&m, "CHAIN").class, NetClass::Signal);
    assert!(net(&m, "CHAIN").driven);
}

// ------------------------------------------------------------------ sheets

#[test]
fn small_modules_are_inlined_and_big_ones_get_sheets() {
    let sch = hierarchical_design();
    let design = build(&sch);
    let mut warnings = Vec::new();
    let plan = plan_sheets(&sch, &design, &SchConfig::default(), &s("top"), &mut warnings);

    // Root plus the big module; the two-resistor divider is inlined.
    assert_eq!(plan.sheets.len(), 2);
    assert_eq!(plan.sheets[0].file_name.show(), "top.kicad_sch");
    assert_eq!(plan.sheets[1].title.show(), "big");
    assert_eq!(plan.sheets[1].parent, Some(0));
    assert_eq!(plan.sheets[0].children.to_vec(), vec![1]);

    // The inlined divider's resistors live on the root sheet.
    let root_refdes: Vec<&str> =
        plan.sheets[0].comps.iter().map(|&ci| design.comps[ci].refdes.as_str()).collect();
    assert!(root_refdes.len() >= 2, "root sheet holds inlined divider");

    // The signal crossing into `big` is a port with a direction.
    assert_eq!(plan.sheets[1].ports.len(), 1);
    let port = plan.sheets[1].ports[0];
    assert_eq!(design.nets[port.net].name, "SIG");
}

#[test]
fn schematic_attribute_overrides_auto_status() {
    // collapse: the small inlined divider gets a dedicated sheet.
    let mut sch = hierarchical_design();
    let div = find_instance(&sch, &["div"]);
    sch.instances[div].collapse = true;
    let design = build(&sch);
    let mut warnings = Vec::new();
    let plan = plan_sheets(&sch, &design, &SchConfig::default(), &s("top"), &mut warnings);
    assert_eq!(plan.sheets.len(), 3);
    assert!(plan.sheets.iter().any(|x| x.title.is("div")));

    // embed: the big module is inlined despite its size.
    let mut sch = hierarchical_design();
    let big = find_instance(&sch, &["big"]);
    sch.instances[big].embed = true;
    let design = build(&sch);
    let plan = plan_sheets(&sch, &design, &SchConfig::default(), &s("top"), &mut warnings);
    assert_eq!(plan.sheets.len(), 1);
}

#[test]
fn plans_are_trees_with_unique_files() {
    let mut sch = new_design();
    for name in ["Amp 1", "amp-1", "!!"] {
        let m = add_module(&mut sch, 0, name);
        sch.instances[m].collapse = true;
        add_r(&mut sch, m, "R1", "1k");
        let inner = add_module(&mut sch, m, "in");
        sch.instances[inner].collapse = true;
        add_r(&mut sch, inner, "R2", "1k");
    }
    let design = build(&sch);
    let mut warnings = Vec::new();
    let mut cfg = SchConfig::default();
    cfg.max_parts_per_sheet = 0;
    let plan = plan_sheets(&sch, &design, &cfg, &s("top"), &mut warnings);
    let files: Vec<String> = plan.sheets.iter().map(|x| x.file_name.show()).collect();
    assert_eq!(
        files,
        vec![
            "top.kicad_sch",
            "sheet.kicad_sch",
            "in.kicad_sch",
            "amp_1.kicad_sch",
            "in_2.kicad_sch",
            "amp_1_2.kicad_sch",
            "in_3.kicad_sch",
        ]
    );
    for (i, sheet) in plan.sheets.iter().enumerate() {
        assert_eq!(sheet.page.show(), (i + 1).to_string());
        for &c in &sheet.children {
            assert_eq!(plan.sheets[c].parent, Some(i));
        }
    }
    // Every part is on one sheet, and every crowded sheet is reported.
    let mut drawn: Vec<usize> = plan.sheets.iter().flat_map(|x| x.comps.clone()).collect();
    drawn.sort();
    assert_eq!(drawn, vec![0, 1, 2, 3, 4, 5]);
    assert_eq!(warnings.len(), 6);
    assert_eq!(plan.comp_sheet.len(), 6);
}

// ------------------------------------------------------------------ placement

fn root_model(sch: &Schematic) -> (DesignModel, SheetModel) {
    let cfg = SchConfig::default();
    let design = build(sch);
    let mut warnings = Vec::new();
    let plan = plan_sheets(sch, &design, &cfg, &s("t"), &mut warnings);
    let model = place_sheet(&design, &plan, 0, &cfg, &mut warnings);
    (design, model)
}

fn find(design: &DesignModel, placed: &[PlacedComp], refdes: &str) -> usize {
    placed
        .iter()
        .position(|p| design.comps[p.comp].refdes == refdes)
        .unwrap_or_else(|| panic!("{refdes} not placed"))
}

fn pin_pos_dir(
    design: &DesignModel,
    placed: &[PlacedComp],
    pi: usize,
    pad: &str,
) -> Option<(Point, Point)> {
    let p = &placed[pi];
    let geom = &design.comps[p.comp].geom;
    let pos = geom.pin_position(&s(pad), p.at, p.rotation, p.mirror)?;
    let dir = geom.pin_outward(&s(pad), p.rotation, p.mirror)?;
    Some((pos, dir))
}

#[test]
fn divider_orients_mid_pins_routable() {
    let sch = divider();
    let (design, model) = root_model(&sch);
    let r1 = find(&design, &model.placed, "R1");
    let r2 = find(&design, &model.placed, "R2");
    let a = pin_pos_dir(&design, &model.placed, r1, "2").unwrap();
    let b = pin_pos_dir(&design, &model.placed, r2, "1").unwrap();
    let cfg = SchConfig::default();
    let board =
        Board { cfg: &cfg, design: &design, placed: &model.placed, nets: &model.nets };
    assert!(
        probe_routable(&board, a, b, &s("MID"), &vec![]),
        "MID pins must be oriented into a routable configuration: {a:?} {b:?}"
    );
}

#[test]
fn decoupling_cap_orients_rail_up_ground_down() {
    let mut sch = new_design();
    add_c(&mut sch, 0, "C1", "100nF");
    add_net(&mut sch, "Power", "VCC", &[&["C1", "1"]]);
    add_net(&mut sch, "Ground", "GND", &[&["C1", "2"]]);

    let (design, model) = root_model(&sch);
    let c = find(&design, &model.placed, "C1");
    let (_, d_vcc) = pin_pos_dir(&design, &model.placed, c, "1").unwrap();
    let (_, d_gnd) = pin_pos_dir(&design, &model.placed, c, "2").unwrap();
    assert!(d_vcc.y < 0, "rail pin should point up, got {d_vcc:?}");
    assert!(d_gnd.y > 0, "ground pin should point down, got {d_gnd:?}");
}

#[test]
fn box_symbol_is_never_rotated() {
    let sch = hierarchical_design();
    let cfg = SchConfig::default();
    let design = build(&sch);
    let mut warnings = Vec::new();
    let plan = plan_sheets(&sch, &design, &cfg, &s("t"), &mut warnings);
    // `big` is its own sheet.
    let big = plan.sheets.iter().position(|x| x.title.show().contains("big")).expect("big sheet");
    let model = place_sheet(&design, &plan, big, &cfg, &mut warnings);
    let u1 = find(&design, &model.placed, "U1");
    assert_eq!(model.placed[u1].rotation, 0, "a box must not rotate");
}

#[test]
fn orientation_is_deterministic() {
    let sch = divider();
    let (_, a) = root_model(&sch);
    let (_, b) = root_model(&sch);
    for (pa, pb) in a.placed.iter().zip(&b.placed) {
        assert_eq!((pa.rotation, pa.mirror), (pb.rotation, pb.mirror));
    }
}

#[test]
fn everything_is_placed_on_the_grid_behind_the_margins() {
    let (design, model) = root_model(&diff_filter());
    let cfg = SchConfig::default();
    for p in &model.placed {
        assert_eq!(p.at.x % cfg.grid_mm, 0, "{}", design.comps[p.comp].refdes);
        assert_eq!(p.at.y % cfg.grid_mm, 0, "{}", design.comps[p.comp].refdes);
        assert!(p.group_root < model.placed.len());
    }
    assert!(model.content_box.x1 >= cfg.margin_left_mm - cfg.grid_mm);
    assert!(model.content_box.y1 >= cfg.margin_top_mm - cfg.grid_mm);
    // The filter rides with the part that it feeds.
    let u1 = find(&design, &model.placed, "U1");
    for part in ["RP", "RN", "CP", "CN"] {
        let i = find(&design, &model.placed, part);
        assert_eq!(model.placed[i].group_root, u1, "{part}");
    }
}

#[test]
fn filters_stand_in_line() {
    // Series resistors share a column, shunt capacitors a row.
    let (design, model) = root_model(&diff_filter());
    let at = |part: &str| model.placed[find(&design, &model.placed, part)].at;
    assert_eq!(at("RP").x, at("RN").x);
    assert_eq!(at("CP").y, at("CN").y);
    assert!(at("RP").x < at("U1").x && at("RN").x < at("U1").x);
    assert!(at("CP").y > at("U1").y);
}

#[test]
fn filters_without_room_stay() {
    // Every line that is tried is covered by the body of the root itself.
    let (design, mut model) = root_model(&diff_filter());
    let cfg = SchConfig::default();
    let list = vec![find(&design, &model.placed, "RP"), find(&design, &model.placed, "RN")];
    let u1 = find(&design, &model.placed, "U1");
    let before: Vec<Point> = model.placed.iter().map(|p| p.at).collect();
    model.placed[u1].bbox =
        BBox { x1: iu(-500.0), y1: iu(-500.0), x2: iu(500.0), y2: iu(500.0) };
    let members: Vec<usize> = (0..model.placed.len()).collect();
    let board = Board { cfg: &cfg, design: &design, placed: &model.placed, nets: &model.nets };
    let after = line_column(&board, u1, &list, &list, &members, true);
    assert!(after.iter().map(|p| p.at).eq(before.iter().copied()));
    // A single part is no column.
    let one = vec![list[0]];
    let after = line_column(&board, u1, &list, &one, &members, true);
    assert!(after.iter().map(|p| p.at).eq(before));
}

#[test]
fn rail_capacitors_go_to_the_band_beside_a_real_part() {
    let (design, model) = root_model(&decoupled_adc());
    assert!(model.relegate);
    let c1 = find(&design, &model.placed, "C1");
    let u1 = find(&design, &model.placed, "U1");
    assert!(model.placed[c1].relegated && !model.placed[u1].relegated);
    assert!(model.placed[c1].at.x > model.placed[u1].at.x);
    // Alone on a sheet the capacitor stays in the flow.
    let mut sch = new_design();
    add_c(&mut sch, 0, "C1", "100nF");
    add_net(&mut sch, "Power", "VCC", &[&["C1", "1"]]);
    let (_, model) = root_model(&sch);
    assert!(!model.relegate && !model.placed[0].relegated);
}

#[test]
fn left_side_lateral_block_is_right_justified() {
    // A capacitor against the left edge of a wide wall, with a body right below it: its texts
    // have room on its left only.
    let wall = r#"(symbol "Wall"
        (symbol "Wall_0_1"
            (rectangle (start -10.16 10.16) (end 10.16 -10.16)
                (stroke (width 0.254) (type default)) (fill (type background))))
        (symbol "Wall_1_1"
            (pin passive line (at 12.7 7.62 180) (length 2.54)
                (name "A" (effects)) (number "1" (effects)))
            (pin passive line (at 12.7 -7.62 180) (length 2.54)
                (name "B" (effects)) (number "2" (effects)))))"#;
    let mut sch = new_design();
    add_component(&mut sch, 0, "U1", Some(wall), &[("A", "1"), ("B", "2")], Some("W"), None);
    add_c(&mut sch, 0, "C1", "100nF");
    add_r(&mut sch, 0, "R1", "10k");
    add_net(&mut sch, "Net", "SIG", &[&["C1", "1"], &["U1", "A"]]);
    add_net(&mut sch, "Ground", "GND", &[&["C1", "2"], &["R1", "2"]]);
    add_net(&mut sch, "Net", "OTHER", &[&["R1", "1"], &["U1", "B"]]);
    let cfg = SchConfig::default();
    let (design, mut model) = root_model(&sch);
    let wall = find(&design, &model.placed, "U1");
    let cap = find(&design, &model.placed, "C1");
    let blocker = find(&design, &model.placed, "R1");
    let (cx, cy) = (60.0, 100.0);
    for (i, x, y) in [(cap, cx, cy), (wall, cx + 3.0 + 10.16, cy), (blocker, cx, cy + 6.0)] {
        model.placed[i].at = Point { x: iu(x), y: iu(y) };
        model.placed[i].rotation = 0;
        model.placed[i].mirror = None;
    }
    let mut warnings = Vec::new();
    place_instance_texts(&cfg, &design, &mut model.placed, &model.nets, &mut warnings);

    let c = &model.placed[cap];
    // The block dropped to the LEFT of the body...
    assert!(
        c.ref_at.x <= c.at.x && c.value_at.x <= c.at.x,
        "the lateral block must sit left of the cap body"
    );
    // ...and therefore both texts are RIGHT-justified (right edge glued to the body).
    assert!(c.ref_justify_right, "left-side lateral Reference must be right-justified");
    assert!(c.value_justify_right, "left-side lateral Value must be right-justified");
    let refbox = ref_text_box(&design.comps[c.comp].refdes, c.ref_at, c.ref_justify_right);
    assert!(refbox.x2 as i64 <= c.at.x as i64 + EPS && refbox.x1 < refbox.x2);
}

// ------------------------------------------------------------------ documents

/// X coordinate of a placed component, found by its designator.
fn symbol_x(doc: &Sexpr, reference: &str) -> Option<f64> {
    for node in elements(doc, "symbol") {
        let named = items(node).iter().any(|n| {
            tag(n) == "property" && text(&items(n)[1]) == "Reference" && text(&items(n)[2]) == reference
        });
        if named {
            return child(node, "at").map(|n| xy(n).0);
        }
    }
    None
}

#[test]
fn analog_net_takes_the_continuous_wiring_path() {
    let out = generate(&analog_filter(), "flt");
    let c = root_text(&out);
    assert!(c.contains("(wire"), "FILT must be routed with real wires");
    assert!(
        c.matches("(label \"FILT\"").count() <= 1,
        "analog FILT is a continuous wire named by at most one label"
    );
    assert!(!breaks_analog(&out, "FILT"), "unexpected fallback in {:?}", out.warnings);
}

#[test]
fn differential_filter_both_legs_stay_continuous_wires() {
    let out = generate(&diff_filter(), "diff");
    let c = root_text(&out);
    for leg in ["AINP_FILT", "AINN_FILT"] {
        assert!(
            !breaks_analog(&out, leg),
            "{leg} must stay a continuous wire; warnings were {:?}",
            out.warnings
        );
    }
    for leg in ["AINP_FILT", "AINN_FILT"] {
        let n = c.matches(&format!("(label \"{leg}\"")).count();
        assert!(n <= 1, "{leg} must be one continuous wire (<=1 label), found {n} labels");
    }
    assert!(c.contains("(wire"), "the legs are routed with real wires");
}

#[test]
fn digital_net_takes_the_label_path() {
    let out = generate(&digital_bus(), "bus");
    assert!(
        !breaks_analog(&out, "BUS"),
        "digital BUS must not be routed as analog; warnings were {:?}",
        out.warnings
    );
    let c = root_text(&out);
    assert!(c.contains("\"U1\"") && c.contains("\"U2\""));
}

#[test]
fn analog_two_pin_net_is_a_real_wire() {
    let out = generate(&divider(), "d");
    let c = root_text(&out);
    assert_eq!(c.matches("(label \"MID\"").count(), 0);
    assert!(c.contains("(wire"));
}

#[test]
fn flat_generation_is_deterministic_and_complete() {
    let sch = divider();
    let a = generate(&sch, "divider");
    let b = generate(&sch, "divider");
    assert_eq!(a.files[0].content, b.files[0].content);
    assert_eq!(a.root_file_name, "divider.kicad_sch");
    assert_eq!(a.files.len(), 1);

    let text = root_text(&a);
    assert!(text.contains("\"R1\""));
    assert!(text.contains("\"R2\""));
    // MID is a facing 2-pin net: wired with a REAL wire, no labels.
    assert_eq!(text.matches("(label \"MID\"").count(), 0);
    assert!(text.contains("(wire"));
    assert!(text.contains("\"pcb_power:VCC\""));
    assert!(text.contains("\"pcb_power:GND\""));
    // Undriven rails get exactly one PWR_FLAG each.
    assert_eq!(text.matches("\"#FLG").count() / 2, 2, "one flag per rail");
}

#[test]
fn shared_power_symbol_for_same_net_pins_of_one_ic() {
    let mut opts = SchOptions::new("bank");
    opts.config.relegate_utility = false;
    let out = generate_schematic(&power_bank(), &opts).unwrap();
    let c = root_text(&out);
    assert_eq!(
        c.matches("(lib_id \"pcb_power:VDD\")").count(),
        1,
        "two VDD pins of one IC must share a single symbol"
    );
    assert_eq!(
        c.matches("(lib_id \"pcb_power:GND\")").count(),
        1,
        "two adjacent GND pins of one IC must share a single symbol"
    );
}

#[test]
fn relegation_moves_decoupling_and_flags_out_of_the_flow() {
    let out = generate(&decoupled_adc(), "dec");
    let c = root_text(&out);
    // Three graphic zone rectangles (functional / decoupling / ERC).
    assert_eq!(c.matches("(type dash)").count(), 3, "three dashed zone outlines must be drawn");
    // Zone titles are emitted.
    for title in ["Functional", "Decoupling", "ERC"] {
        assert!(c.contains(&format!("(text \"{title}\"")), "missing zone title {title}");
    }
    // The decoupling cap C1 is relegated to the right of the IC U1.
    let cx = symbol_x(&out.files[0].content, "C1").expect("C1 placed");
    let ux = symbol_x(&out.files[0].content, "U1").expect("U1 placed");
    assert!(cx > ux + 10.0, "decoupling C1 (x={cx}) must sit well right of U1 (x={ux})");
}

#[test]
fn a_relegated_flag_of_a_negative_rail_hangs_down() {
    let mut sch = decoupled_adc();
    let vdd = sch.nets.iter().position(|n| n.name == "VDD").unwrap();
    sch.nets[vdd].name = s("VEE");
    let cfg = SchConfig::default();
    let design = build(&sch);
    let mut warnings = Vec::new();
    let plan = plan_sheets(&sch, &design, &cfg, &s("t"), &mut warnings);
    let model = place_sheet(&design, &plan, 0, &cfg, &mut warnings);
    let scene = Scene { cfg: &cfg, design: &design, model: &model, plan: &plan, corridors: &[] };
    for (names, down) in [(vec![s("VEE")], true), (vec![s("GND")], true), (vec![s("VCC")], false)] {
        let mut canvas = Canvas::new(Reg::new(Vec::new()));
        assert!(canvas.relegate_flags(&scene, &names).is_some());
        assert_eq!(canvas.out.power_symbols.len(), 1);
        assert_eq!(canvas.out.power_symbols[0].net, names[0]);
        assert_eq!(canvas.out.power_symbols[0].down, down, "{names:?}");
        assert_eq!(canvas.out.pwr_flags.len(), 1);
        assert_eq!(canvas.out.pwr_flags[0].rotation, if down { 180 } else { 0 });
    }
}

#[test]
fn relegation_preserves_the_netlist_and_can_be_disabled() {
    let mut on = SchOptions::new("dec");
    on.config.relegate_utility = true;
    let mut off = SchOptions::new("dec");
    off.config.relegate_utility = false;
    let a = generate_schematic(&decoupled_adc(), &on).unwrap();
    let b = generate_schematic(&decoupled_adc(), &off).unwrap();
    // Zones appear only when relegating.
    assert_eq!(root_text(&a).matches("(type dash)").count(), 3);
    assert_eq!(root_text(&b).matches("(type dash)").count(), 0);
    // Both keep exactly one PWR_FLAG per undriven rail (VDD + GND).
    for out in [&a, &b] {
        assert_eq!(
            root_text(out).matches("\"#FLG").count() / 2,
            2,
            "one flag per undriven rail regardless of relegation"
        );
    }
}

/// Dashed zone rectangles as (x1, y1, x2, y2), left to right.
fn zone_rects(doc: &Sexpr) -> Vec<(f64, f64, f64, f64)> {
    let mut out: Vec<(f64, f64, f64, f64)> = elements(doc, "rectangle")
        .into_iter()
        .map(|n| {
            let (a, b) = (xy(child(n, "start").unwrap()), xy(child(n, "end").unwrap()));
            (a.0.min(b.0), a.1.min(b.1), a.0.max(b.0), a.1.max(b.1))
        })
        .collect();
    out.sort_by(|a, b| a.0.partial_cmp(&b.0).unwrap());
    out
}

fn wire_segments(doc: &Sexpr) -> Vec<((f64, f64), (f64, f64))> {
    elements(doc, "wire")
        .into_iter()
        .map(|n| {
            let pts = items(child(n, "pts").unwrap());
            (xy(&pts[1]), xy(&pts[2]))
        })
        .collect()
}

/// Labels of one kind as (name, x, y, rotation).
fn labels_of(doc: &Sexpr, kind: &str) -> Vec<(String, f64, f64, i64)> {
    elements(doc, kind)
        .into_iter()
        .map(|n| {
            let at = child(n, "at").unwrap();
            let rot = match &items(at)[3] {
                Sexpr::Int(v) => *v,
                _ => -1,
            };
            (s(text(&items(n)[1])), xy(at).0, xy(at).1, rot)
        })
        .collect()
}

/// Power symbols as (rail, x, y, is_ground), flags excluded.
fn power_symbols(doc: &Sexpr) -> Vec<(String, f64, f64, bool)> {
    let mut out = Vec::new();
    for n in elements(doc, "symbol") {
        let lib = text(&items(child(n, "lib_id").unwrap())[1]);
        if let Some(rail) = lib.strip_prefix("pcb_power:") {
            if rail != "PWR_FLAG" {
                let (x, y) = xy(child(n, "at").unwrap());
                out.push((s(rail), x, y, rail == "GND"));
            }
        }
    }
    out
}

#[test]
fn labels_read_outward_from_their_pin() {
    let out = generate(&decoupled_adc(), "lbl");
    let c = &out.files[0].content;
    let segs = wire_segments(c);
    let mut checked = 0;
    for kind in ["global_label", "label"] {
        for (name, x, y, rot) in labels_of(c, kind) {
            // Direction of the wire leaving the label anchor (toward the pin).
            let dir = segs.iter().find_map(|(a, b)| {
                if (a.0 - x).abs() < 1e-3 && (a.1 - y).abs() < 1e-3 {
                    Some((b.0 - a.0, b.1 - a.1))
                } else if (b.0 - x).abs() < 1e-3 && (b.1 - y).abs() < 1e-3 {
                    Some((a.0 - b.0, a.1 - b.1))
                } else {
                    None
                }
            });
            if let Some(dir) = dir {
                if dir.0.abs() > dir.1.abs() {
                    // Text extends +x at rot 0, -x at rot 180: always opposite the wire, which
                    // runs toward the pin.
                    let text_dir = if rot == 0 { 1.0 } else { -1.0 };
                    assert!(
                        text_dir * dir.0 < 0.0,
                        "{kind} {name}: reads into its wire (rot {rot}, wire dx {})",
                        dir.0
                    );
                    checked += 1;
                }
            }
        }
    }
    assert!(checked > 0, "expected a horizontal label to check");
}

fn label_x(doc: &Sexpr, name: &str) -> f64 {
    ["global_label", "label"]
        .iter()
        .flat_map(|kind| labels_of(doc, kind))
        .find(|l| l.0 == name)
        .unwrap_or_else(|| panic!("no label {name}"))
        .1
}

#[test]
fn sibling_labels_share_a_column() {
    let out = generate(&sibling_ports_ic(), "sib");
    let doc = &out.files[0].content;
    assert_eq!(label_x(doc, "A_LONG"), label_x(doc, "B"));
    assert_eq!(label_x(doc, "CLK"), label_x(doc, "PDRST"));
    assert!(label_x(doc, "B") < label_x(doc, "CLK"));
}

#[test]
fn sibling_labels_that_would_overlap_stay() {
    let out = generate(&sibling_ports_collide(), "sib");
    let doc = &out.files[0].content;
    assert_ne!(label_x(doc, "CLK"), label_x(doc, "PDRESET"));
}

#[test]
fn one_symbol_crowns_a_split_rail() {
    let mut opts = SchOptions::new("rail");
    opts.config.relegate_utility = false;
    let out = generate_schematic(&split_rail_ic(), &opts).unwrap();
    assert_eq!(root_text(&out).matches("(lib_id \"pcb_power:VDD\")").count(), 1);
}

#[test]
fn a_crowded_output_still_has_its_name() {
    let out = generate(&adc_dout_congested(), "adc");
    let c = root_text(&out);
    for leg in ["AINP_FILT", "AINN_FILT"] {
        assert!(c.matches(&format!("(label \"{leg}\"")).count() <= 1, "{leg}");
    }
    // Both ends of the output are reached: by a wire, or by a label each.
    let labels = c.matches("(label \"MISO\"").count() + c.matches("(global_label \"MISO\"").count();
    assert!(labels <= 2, "{labels}");
}

#[test]
fn a_pulled_up_output_leaves_the_input_whole() {
    let out = generate(&adc_pullup_over_analog(), "adc");
    let c = root_text(&out);
    assert!(!breaks_analog(&out, "AIN_FILT"));
    assert!(c.matches("(label \"AIN_FILT\"").count() <= 1);
    let labels = c.matches("(label \"MISO\"").count() + c.matches("(global_label \"MISO\"").count();
    assert!(labels <= 2, "{labels}");
}

#[test]
fn zones_enclose_their_power_symbols() {
    let out = generate(&decoupled_adc(), "zc");
    let c = &out.files[0].content;
    let zones = zone_rects(c);
    assert_eq!(zones.len(), 3, "functional + decoupling + erc");
    let inside = |x1: f64, y1: f64, x2: f64, y2: f64| {
        zones
            .iter()
            .any(|z| z.0 - 0.1 <= x1 && x2 <= z.2 + 0.1 && z.1 - 0.1 <= y1 && y2 <= z.3 + 0.1)
    };
    for (name, x, y, ground) in power_symbols(c) {
        let ht = (name.chars().count() as f64 * 0.762 + 1.27).max(2.54);
        let (y1, y2) = if ground { (y, y + 6.35) } else { (y - 7.62, y) };
        assert!(
            inside(x - ht, y1, x + ht, y2),
            "power symbol {name} at ({x},{y}) escapes every zone"
        );
    }
}

#[test]
fn zones_form_a_shared_edge_grid() {
    let out = generate(&decoupled_adc(), "grid");
    let z = zone_rects(&out.files[0].content);
    assert_eq!(z.len(), 3);
    let func = z[0]; // leftmost cell
    let mut right = [z[1], z[2]];
    right.sort_by(|a, b| a.1.partial_cmp(&b.1).unwrap()); // top first
    let (top, bot) = (right[0], right[1]); // decoupling over erc
    let close = |a: f64, b: f64| (a - b).abs() < 0.01;
    // The right column's two cells share their left and right edges.
    assert!(close(top.0, bot.0), "utility cells share the left edge");
    assert!(close(top.2, bot.2), "utility cells share the right edge");
    // Functional spans the full height; the outer top/bottom are shared.
    assert!(close(func.1, top.1), "functional/decoupling share the top");
    assert!(close(func.3, bot.3), "functional/erc share the bottom");
    // Column and row seams abut with NO gap.
    assert!(
        func.2 >= top.0 - 0.01,
        "gap between functional and utility column ({} vs {})",
        func.2,
        top.0
    );
    assert!(
        top.3 >= bot.1 - 0.01,
        "gap between decoupling and erc ({} vs {})",
        top.3,
        bot.1
    );
}

#[test]
fn unconnected_pin_gets_no_connect() {
    let mut sch = divider();
    sch.nets.retain(|n| n.name != "GND");
    let out = generate(&sch, "t");
    assert!(root_text(&out).contains("(no_connect"));
}

#[test]
fn single_endpoint_signal_net_gets_global_label() {
    let mut sch = divider();
    let r1 = find_instance(&sch, &["R1"]);
    let mid = sch.nets.iter().position(|n| n.name == "MID").unwrap();
    sch.nets[mid].ports.retain(|p| p.owner == Some(r1));
    let text = root_text(&generate(&sch, "t"));
    assert_eq!(text.matches("(global_label \"MID\"").count(), 1);
    assert_eq!(text.matches("(label \"MID\"").count(), 0);
    assert!(text.contains("(no_connect"));
}

#[test]
fn box_symbol_synthesized_when_symbol_missing() {
    let mut sch = divider();
    for inst in sch.instances.iter_mut() {
        inst.symbol = None;
    }
    let out = generate(&sch, "t");
    assert_eq!(out.warnings.len(), 2);
    assert!(root_text(&out).contains("_BOX"));
}

#[test]
fn hierarchical_design_emits_two_linked_sheets() {
    let sch = hierarchical_design();
    let out = generate(&sch, "top");
    assert_eq!(out.files.len(), 2);
    assert_eq!(out.files[0].file_name, "top.kicad_sch");
    assert_eq!(out.files[1].file_name, "big.kicad_sch");

    let root = show(&out.files[0].content);
    let child = show(&out.files[1].content);
    // The root references the child sheet with a matching sheet pin.
    assert!(root.contains("(sheet "));
    assert!(root.contains("\"big.kicad_sch\""));
    assert!(root.contains("(pin \"SIG\""));
    // The child carries the matching hierarchical label...
    assert!(child.contains("(hierarchical_label \"SIG\""));
    // ...and no sheet_instances block (root only).
    assert!(!child.contains("(sheet_instances"));
    assert!(root.contains("(sheet_instances"));
    // Power symbols never become sheet pins.
    assert!(!root.contains("(pin \"VCC\""));
    // Sub-sheet symbols use the extended instance path.
    assert!(child.contains("(path \"/"));

    // Determinism across runs.
    let again = generate(&sch, "top");
    assert_eq!(out.files[0].content, again.files[0].content);
    assert_eq!(out.files[1].content, again.files[1].content);
}

#[test]
fn every_file_that_is_named_is_written() {
    let mut sch = new_design();
    for name in ["a", "b"] {
        let m = add_module(&mut sch, 0, name);
        sch.instances[m].collapse = true;
        let inner = add_module(&mut sch, m, "in");
        sch.instances[inner].collapse = true;
        add_r(&mut sch, inner, "R1", "1k");
    }
    let out = generate(&sch, "top");
    let written: Vec<&str> = out.files.iter().map(|f| f.file_name.as_str()).collect();
    let mut named = 0;
    for file in &out.files {
        for sheet in elements(&file.content, "sheet") {
            for prop in items(sheet).iter().filter(|n| tag(n) == "property") {
                if text(&items(prop)[1]) == "Sheetfile" {
                    assert!(written.contains(&text(&items(prop)[2])));
                    named += 1;
                }
            }
        }
    }
    assert_eq!(named, 4);
    assert_eq!(written.len(), 5);
}

#[test]
fn wires_of_a_filter_do_not_run_into_each_other() {
    let out = generate(&diff_filter(), "diff");
    let segs = wire_segments(&out.files[0].content);
    assert!(!segs.is_empty());
    for (i, a) in segs.iter().enumerate() {
        assert!(a.0 .0 == a.1 .0 || a.0 .1 == a.1 .1, "wires run along the axes");
        for b in &segs[i + 1..] {
            let level = |s: &((f64, f64), (f64, f64))| s.0 .1 == s.1 .1;
            if level(a) && level(b) && a.0 .1 == b.0 .1 {
                let (lo, hi) = (a.0 .0.min(a.1 .0), a.0 .0.max(a.1 .0));
                let (l2, h2) = (b.0 .0.min(b.1 .0), b.0 .0.max(b.1 .0));
                assert!(hi <= l2 + 1e-6 || h2 <= lo + 1e-6, "{a:?} {b:?}");
            }
        }
    }
}

#[test]
fn manual_positions_pin_components() {
    let mut sch = divider();
    // Position R1 by hand: 101.6 mm, 50.8 mm.
    sch.instances[0].symbol_positions.push(SymbolPosition {
        key: s("comp:R1"),
        position: Position { x: iu(101.6), y: iu(50.8), rotation: 0, mirror: None },
    });
    let out = generate(&sch, "t");
    let text = root_text(&out);
    assert!(text.contains("\"R1\""));
    // R1 and R2 both placed; deterministic output.
    let again = generate(&sch, "t");
    assert_eq!(text, root_text(&again));
}

#[test]
fn positions_set_by_hand_are_kept_against_each_other() {
    let mut sch = divider();
    for (key, x, y) in [("comp:R1", 101.6, 50.8), ("comp:R2@U1", 127.0, 76.2)] {
        sch.instances[0].symbol_positions.push(SymbolPosition {
            key: s(key),
            position: Position { x: iu(x), y: iu(y), rotation: 90, mirror: Some(MirrorAxis::X) },
        });
    }
    for key in ["comp:R9", "comp:R1@U2", "sym:VCC#1"] {
        sch.instances[0].symbol_positions.push(SymbolPosition {
            key: s(key),
            position: Position { x: 0, y: 0, rotation: 0, mirror: None },
        });
    }
    let (design, model) = root_model(&sch);
    assert!(matches!(&design.warnings[0], Warning::ManualMultiUnit { key } if key == "comp:R1@U2"));
    assert!(matches!(&design.warnings[1], Warning::ManualNotFound { key } if key == "comp:R9"));
    assert_eq!(design.warnings.len(), 2);
    let (a, b) = (&model.placed[0], &model.placed[1]);
    assert!(a.pinned && b.pinned);
    assert_eq!((b.at.x - a.at.x, b.at.y - a.at.y), (iu(25.4), iu(25.4)));
    assert_eq!((a.rotation, a.mirror), (270, Some(MirrorAxis::X)));
}

#[test]
fn long_anchor_chains_reach_their_root() {
    let (design, model) = root_model(&divider());
    let cfg = SchConfig::default();
    let chain = |anchors: &[Option<usize>]| {
        let mut placed: Vec<PlacedComp> = Vec::new();
        for a in anchors {
            let mut one = model.placed[0];
            one.anchor = *a;
            placed.push(one);
        }
        let board = Board { cfg: &cfg, design: &design, placed: &placed, nets: &[] };
        let mut warnings = Vec::new();
        let out = resolve_groups(&board, &mut warnings);
        let roots: Vec<usize> = out.iter().map(|p| p.group_root).collect();
        let kept: Vec<Option<usize>> = out.iter().map(|p| p.anchor).collect();
        (roots, kept, warnings.len())
    };
    for n in [2, 9, 40] {
        let mut anchors: Vec<Option<usize>> = (1..n).map(Some).collect();
        anchors.push(None);
        assert_eq!(chain(&anchors), (vec![n - 1; n], anchors, 0));
    }
    // Those that go round stand alone, and so does what hangs on them.
    assert_eq!(
        chain(&[Some(1), Some(0), Some(0), None, Some(3)]),
        (vec![0, 1, 2, 3, 3], vec![None, None, None, None, Some(3)], 3)
    );
}

#[test]
fn a_crystal_goes_to_the_part_on_both_of_its_nets() {
    let mut sch = new_design();
    add_box(&mut sch, 0, "U1", &[("A", "1"), ("B", "2"), ("C", "3"), ("D", "4"), ("E", "5")]);
    add_box(&mut sch, 0, "U2", &[("XI", "1"), ("XO", "2"), ("GND", "3")]);
    let y1 = add_r(&mut sch, 0, "Y1", "8MHz");
    sch.instances[y1].role = Some(s("crystal"));
    add_net(&mut sch, "Net", "XI", &[&["Y1", "1"], &["U1", "A"], &["U2", "XI"]]);
    add_net(&mut sch, "Net", "XO", &[&["Y1", "2"], &["U2", "XO"]]);
    let (design, model) = root_model(&sch);
    let y = find(&design, &model.placed, "Y1");
    assert_eq!(model.placed[y].role, Role::Crystal);
    assert_eq!(model.placed[y].anchor, Some(find(&design, &model.placed, "U2")));
    // No part is on both nets: the crystal stands alone.
    sch.nets.retain(|n| n.name != "XO");
    add_net(&mut sch, "Net", "XO", &[&["Y1", "2"], &["U1", "B"]]);
    sch.nets.retain(|n| n.name != "XI");
    add_net(&mut sch, "Net", "XI", &[&["Y1", "1"], &["U2", "XI"]]);
    let (design, model) = root_model(&sch);
    let y = find(&design, &model.placed, "Y1");
    assert_eq!(model.placed[y].anchor, None);
}

#[test]
fn power_references_are_unique_in_a_project() {
    let out = generate(&hierarchical_design(), "top");
    let mut all: Vec<String> = Vec::new();
    for file in &out.files {
        for n in elements(&file.content, "symbol") {
            for property in elements(n, "property") {
                if text(&items(property)[1]) == "Reference" {
                    all.push(s(text(&items(property)[2])));
                }
            }
        }
    }
    let count = all.len();
    assert!(all.iter().any(|r| r.starts_with("#PWR0")));
    assert!(all.iter().any(|r| r.starts_with("#PWR10")));
    all.sort();
    all.dedup();
    assert_eq!(all.len(), count);
}

#[test]
fn anchors_that_are_not_there_are_reported() {
    let mut sch = divider();
    let r2 = find_instance(&sch, &["R2"]);
    sch.instances[r2].anchor = Some(s("nowhere"));
    let out = generate(&sch, "t");
    assert!(out.warnings.iter().any(
        |w| matches!(w, Warning::AnchorNotFound { anchor, refdes } if anchor == "nowhere" && refdes == "R2")
    ));
    sch.instances[r2].anchor = Some(s("R1"));
    let (design, model) = root_model(&sch);
    let i = find(&design, &model.placed, "R2");
    assert_eq!(model.placed[i].anchor, Some(find(&design, &model.placed, "R1")));
}

#[test]
fn satellites_of_a_long_chain_are_all_placed() {
    let (design, model) = root_model(&divider());
    let cfg = SchConfig::default();
    let place = |anchors: &[Option<usize>]| {
        let mut placed: Vec<PlacedComp> = Vec::new();
        for a in anchors {
            let mut one = model.placed[0];
            one.anchor = *a;
            placed.push(one);
        }
        let list: Vec<usize> = (0..anchors.len()).filter(|i| anchors[*i].is_some()).collect();
        let mut warnings = Vec::new();
        place_satellites(&cfg, &design, &mut placed, &[], &list, false, &mut warnings);
        warnings
    };
    for n in [2, 9, 40] {
        // Each hangs on the next one: the first ones wait longest.
        let mut anchors: Vec<Option<usize>> = (1..n).map(Some).collect();
        anchors.push(None);
        assert_eq!(place(&anchors), vec![]);
        // Each hangs on the one before it.
        let mut anchors: Vec<Option<usize>> = (0..n - 1).map(Some).collect();
        anchors.insert(0, None);
        assert_eq!(place(&anchors), vec![]);
    }
    let lost = place(&[Some(1), Some(0), Some(0), None, Some(3)]);
    assert_eq!(lost.len(), 3);
    let names = design.comps[model.placed[0].comp].refdes.clone();
    assert_eq!(
        warning_lines(&lost),
        vec![format!("unresolved anchor chain for: {names}, {names}, {names}")]
    );
}

#[test]
fn room_is_kept_where_a_negative_rail_is_drawn() {
    let mut sch = decoupled_adc();
    let vdd = sch.nets.iter().position(|n| n.name == "VDD").unwrap();
    let cfg = SchConfig::default();
    for (name, down) in [("VDD", false), ("VEE", true)] {
        sch.nets[vdd].name = s(name);
        let (design, model) = root_model(&sch);
        let board =
            Board { cfg: &cfg, design: &design, placed: &model.placed, nets: &model.nets };
        let sn = model.nets.iter().position(|n| n.name == name).unwrap();
        assert_eq!(model.nets[sn].class, NetClass::Power);
        let mut seen = 0;
        for e in model.nets[sn].endpoints.iter() {
            let (pos, dir) = pin_pos_dir(&design, &model.placed, e.placed, &e.pad).unwrap();
            if dir.x == 0 {
                continue;
            }
            seen += 1;
            let rooms: Vec<BBox> = power_keepouts(&board, e.placed)
                .into_iter()
                .filter(|r| r.net.as_deref() == Some(name))
                .map(|r| r.bbox)
                .collect();
            assert_eq!(rooms.len(), 2);
            // The symbol stands below the pin, or above it.
            assert_eq!(rooms[1].y1 >= pos.y, down);
            assert_eq!(rooms[1].y2 <= pos.y, !down);
            let reach: Vec<BBox> = power_stub_corridors(&board)
                .into_iter()
                .filter(|c| c.net == name && c.owner == e.placed)
                .map(|c| c.bbox)
                .collect();
            let low = reach.iter().map(|b| b.y2).max().unwrap();
            let high = reach.iter().map(|b| b.y1).min().unwrap();
            assert_eq!(low - pos.y > pos.y - high, down);
        }
        assert!(seen > 0);
    }
}

/// Two pins of different nets that a chain of touching wires joins.
fn contact(scene: &Scene, wires: &[Vec<Point>]) -> Option<(String, String)> {
    let mut spans: Vec<Span> = Vec::new();
    let mut group: Vec<usize> = Vec::new();
    for (k, w) in wires.iter().enumerate() {
        for v in w.windows(2) {
            spans.push(Span { x1: v[0].x, y1: v[0].y, x2: v[1].x, y2: v[1].y });
            group.push(k);
        }
    }
    for a in 0..spans.len() {
        for b in 0..a {
            if segs_touch_forbidden(&spans[a], &spans[b]) {
                let (from, to) = (group[a], group[b]);
                for g in group.iter_mut() {
                    if *g == from {
                        *g = to;
                    }
                }
            }
        }
    }
    let mut owner: Vec<Option<String>> = vec![None; wires.len()];
    for sn in 0..scene.model.nets.len() {
        for e in net_endpoints(scene, sn) {
            for a in 0..spans.len() {
                if point_on_seg(e.pos.x, e.pos.y, &spans[a]) {
                    let name = scene.model.nets[sn].name.clone();
                    let known = owner[group[a]].get_or_insert(name.clone());
                    if *known != name {
                        return Some((known.clone(), name));
                    }
                }
            }
        }
    }
    None
}

#[test]
fn no_signal_pin_is_left_out_and_nets_stay_apart() {
    let designs = [
        (divider(), true),
        (diff_filter(), true),
        (decoupled_adc(), true),
        (digital_bus(), true),
        (analog_filter(), true),
        (adc_pullup_over_analog(), true),
        (split_rail_ic(), true),
        (sibling_ports_ic(), true),
        // The crowded output has room for nothing but its short stub.
        (adc_dout_congested(), false),
    ];
    let cfg = SchConfig::default();
    for (sch, apart) in &designs {
        let design = build(sch);
        let mut warnings = Vec::new();
        let plan = plan_sheets(sch, &design, &cfg, &s("t"), &mut warnings);
        let mut model = place_sheet(&design, &plan, 0, &cfg, &mut warnings);
        let out = route_sheet(&design, &plan, &mut model, &cfg, &Vec::new(), &mut warnings);
        let scene =
            Scene { cfg: &cfg, design: &design, model: &model, plan: &plan, corridors: &[] };
        for sn in 0..model.nets.len() {
            let name = &model.nets[sn].name;
            for e in net_endpoints(&scene, sn) {
                assert!(out.wires.iter().any(|w| w.contains(&e.pos)), "{name} at {:?}", e.pos);
            }
        }
        if *apart {
            assert_eq!(contact(&scene, &out.wires), None);
        } else {
            let miso = model.nets.iter().position(|n| n.name == "MISO").unwrap();
            let short = |w: &Vec<Point>| {
                w.len() == 2
                    && w[1] == Point { x: w[0].x - iu(2.54), y: w[0].y }
                    && net_endpoints(&scene, miso).iter().any(|e| e.pos == w[0])
            };
            assert!(contact(&scene, &out.wires).is_some());
            let rest: Vec<Vec<Point>> = out.wires.iter().filter(|w| !short(w)).cloned().collect();
            assert_eq!(rest.len() + 1, out.wires.len());
            assert_eq!(contact(&scene, &rest), None);
        }
    }
}
