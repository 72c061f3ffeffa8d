//! Sheets as s-expression trees in the file format of KiCad.

use vstd::prelude::*;
use crate::geometry::{full_turn, MirrorAxis};
use crate::nodes::{
    at_turned_node, font, int_node, node, node1, node2, node3, node4, plain_effects, push_copies,
    push_tree, sstr, sym, v_at_turned, v_font, v_int, v_node, v_one, v_plain_effects, v_text,
    v_word, v_xy, xy_node,
};
use crate::sexpr::{trees, Sexpr, SexprView};
use crate::text::{
    append_chars, chars_of, find_char, mm_text, place_of_char, same, skip_chars, text_of,
    to_mm_text,
};
use crate::units::{gap, pt, spec_gap, Iu, Point};
use crate::uuid::texts;

verus! {

/// Version of the file format.
pub const KICAD_SCH_VERSION: i64 = 20250114;

/// Library of the generated power symbols. No library of that name is ever installed, so no
/// installed symbol takes the place of a generated one.
pub const POWER_LIB_NICKNAME: &'static str = "pcb_power";

/// Direction of a port between two sheets.
#[derive(Clone, Copy, Debug, PartialEq, Eq, Structural)]
pub enum PortDirection {
    Input,
    Output,
    Bidirectional,
}

impl PortDirection {
    pub open spec fn spec_shape(self) -> Seq<char> {
        match self {
            PortDirection::Input => "input"@,
            PortDirection::Output => "output"@,
            PortDirection::Bidirectional => "bidirectional"@,
        }
    }

    /// The name of the shape that a label of this direction has.
    pub fn shape(self) -> (r: &'static str)
        ensures
            r@ == self.spec_shape(),
    {
        match self {
            PortDirection::Input => "input",
            PortDirection::Output => "output",
            PortDirection::Bidirectional => "bidirectional",
        }
    }
}

// ---------------------------------------------------------------- placing of texts

/// The angle that keeps a text level while its symbol turns.
pub open spec fn level_angle(rotation: int) -> int {
    if rotation % 360 == 90 {
        270
    } else if rotation % 360 == 270 {
        90
    } else {
        0
    }
}

pub fn text_angle(rotation: i32) -> (r: i32)
    ensures
        r == level_angle(rotation as int),
{
    match full_turn(rotation as i64) {
        90 => 270,
        270 => 90,
        _ => 0,
    }
}

/// The justification to write so that this one is seen: half a turn swaps both axes, and a
/// mirror swaps one.
pub open spec fn written(token: Seq<char>, rotation: int, mirror: Option<MirrorAxis>) -> Seq<char> {
    let half = rotation % 360 == 180;
    let h = half != (mirror == Some(MirrorAxis::Y));
    let v = half != (mirror == Some(MirrorAxis::X));
    if token == "left"@ {
        if h {
            "right"@
        } else {
            "left"@
        }
    } else if token == "right"@ {
        if h {
            "left"@
        } else {
            "right"@
        }
    } else if token == "top"@ {
        if v {
            "bottom"@
        } else {
            "top"@
        }
    } else {
        if v {
            "top"@
        } else {
            "bottom"@
        }
    }
}

pub open spec fn all_written(tokens: Seq<Seq<char>>, rotation: int, mirror: Option<MirrorAxis>) -> Seq<
    Seq<char>,
> {
    Seq::new(tokens.len(), |i: int| written(tokens[i], rotation, mirror))
}

fn choose_token(flip: bool, a: &'static str, b: &'static str) -> (r: &'static str)
    ensures
        r@ == if flip {
            b@
        } else {
            a@
        },
{
    if flip {
        b
    } else {
        a
    }
}

/// The justification to write so that the given one is seen on a turned or mirrored symbol.
pub fn render_justify(justify: &[&str], rotation: i32, mirror: Option<MirrorAxis>) -> (r: Vec<
    &'static str,
>)
    ensures
        texts(r@) == all_written(texts(justify@), rotation as int, mirror),
{
    let half: bool = full_turn(rotation as i64) == 180;
    let y: bool = match mirror {
        Some(MirrorAxis::Y) => true,
        _ => false,
    };
    let x: bool = match mirror {
        Some(MirrorAxis::X) => true,
        _ => false,
    };
    let h: bool = half != y;
    let v: bool = half != x;
    let mut out: Vec<&'static str> = Vec::new();
    let ghost want = all_written(texts(justify@), rotation as int, mirror);
    let mut n: usize = 0;
    while n < justify.len()
        invariant
            n <= justify@.len(),
            h == ((rotation as int % 360 == 180) != (mirror == Some(MirrorAxis::Y))),
            v == ((rotation as int % 360 == 180) != (mirror == Some(MirrorAxis::X))),
            want == all_written(texts(justify@), rotation as int, mirror),
            texts(out@) =~= want.take(n as int),
        decreases justify@.len() - n,
    {
        let j: &str = justify[n];
        let t: &'static str = if same(j, "left") {
            choose_token(h, "left", "right")
        } else if same(j, "right") {
            choose_token(h, "right", "left")
        } else if same(j, "top") {
            choose_token(v, "top", "bottom")
        } else {
            choose_token(v, "bottom", "top")
        };
        let ghost before = texts(out@);
        out.push(t);
        n = n + 1;
        proof {
            assert(t@ == want[n - 1]);
            assert(texts(out@) =~= before.push(t@));
        }
    }
    proof {
        assert(texts(out@) =~= want);
    }
    out
}

/// Half a turn and a mirror that swaps the same axis cancel out.
pub proof fn law_justify_flips_cancel(rotation: int)
    requires
        rotation % 360 == 180,
    ensures
        written("left"@, rotation, Some(MirrorAxis::Y)) == "left"@,
        written("right"@, rotation, Some(MirrorAxis::Y)) == "right"@,
        written("top"@, rotation, Some(MirrorAxis::X)) == "top"@,
        written("bottom"@, rotation, Some(MirrorAxis::X)) == "bottom"@,
{
    reveal_strlit("left");
    reveal_strlit("right");
    reveal_strlit("top");
    reveal_strlit("bottom");
    assert("left"@.len() == 4 && "right"@.len() == 5 && "top"@.len() == 3 && "bottom"@.len() == 6);
}

/// A label read to the left is anchored on its right.
pub open spec fn reads_left(rotation: int) -> bool {
    rotation % 360 == 180 || rotation % 360 == 270
}

pub open spec fn label_tokens(rotation: int) -> Seq<Seq<char>> {
    if reads_left(rotation) {
        seq!["right"@, "bottom"@]
    } else {
        seq!["left"@, "bottom"@]
    }
}

/// The justification of a local label: its text stands on the wire.
pub fn label_justify(rotation: i32) -> (r: Vec<&'static str>)
    ensures
        texts(r@) == label_tokens(rotation as int),
{
    let turn: i32 = full_turn(rotation as i64);
    let r: Vec<&'static str> = if turn == 180 || turn == 270 {
        vec!["right", "bottom"]
    } else {
        vec!["left", "bottom"]
    };
    proof {
        assert(texts(r@) =~= label_tokens(rotation as int));
    }
    r
}

pub open spec fn flag_tokens(rotation: int) -> Seq<Seq<char>> {
    if reads_left(rotation) {
        seq!["right"@]
    } else {
        seq!["left"@]
    }
}

/// The justification of a label in a flag: its text is centred in height.
pub fn flag_label_justify(rotation: i32) -> (r: Vec<&'static str>)
    ensures
        texts(r@) == flag_tokens(rotation as int),
{
    let turn: i32 = full_turn(rotation as i64);
    let r: Vec<&'static str> = if turn == 180 || turn == 270 {
        vec!["right"]
    } else {
        vec!["left"]
    };
    proof {
        assert(texts(r@) =~= flag_tokens(rotation as int));
    }
    r
}

/// The rotation of a pin of a sheet's block, by the edge that it lies on.
pub open spec fn edge_rotation(at: Point, x: Iu, y: Iu, w: Iu) -> int {
    if spec_gap(at.x as int, x as int) < 100 {
        180
    } else if spec_gap(at.x as int, x + w) < 100 {
        0
    } else if spec_gap(at.y as int, y as int) < 100 {
        90
    } else {
        270
    }
}

/// The rotation of a pin of a sheet's block: left, right, top or else bottom edge.
pub fn infer_sheet_pin_rotation(at: Point, x: Iu, y: Iu, w: Iu) -> (r: i32)
    ensures
        r == edge_rotation(at, x, y, w),
{
    let far: i64 = at.x as i64 - (x as i64 + w as i64);
    if gap(at.x, x) < 100 {
        180
    } else if -100 < far && far < 100 {
        0
    } else if gap(at.y, y) < 100 {
        90
    } else {
        270
    }
}

// ---------------------------------------------------------------- common nodes

pub open spec fn v_words(tokens: Seq<Seq<char>>) -> Seq<SexprView> {
    Seq::new(tokens.len(), |i: int| v_word(tokens[i]))
}

/// The effects of a text.
pub open spec fn v_effects(justify: Seq<Seq<char>>, hide: bool) -> SexprView {
    v_node(
        "effects"@,
        seq![v_font()] + (if justify.len() > 0 {
            seq![v_node("justify"@, v_words(justify))]
        } else {
            Seq::empty()
        }) + (if hide {
            seq![v_one("hide"@, v_word("yes"@))]
        } else {
            Seq::empty()
        }),
    )
}

pub(crate) fn effects(justify: &[&str], hide: bool) -> (r: Sexpr)
    ensures
        r@ == v_effects(texts(justify@), hide),
{
    let mut items: Vec<Sexpr> = Vec::new();
    push_tree(&mut items, font());
    if justify.len() > 0 {
        let mut words: Vec<Sexpr> = Vec::new();
        let mut n: usize = 0;
        proof {
            assert(trees(words@) =~= v_words(texts(justify@)).take(0));
        }
        while n < justify.len()
            invariant
                n <= justify@.len(),
                trees(words@) =~= v_words(texts(justify@)).take(n as int),
            decreases justify@.len() - n,
        {
            push_tree(&mut words, sym(justify[n]));
            n = n + 1;
        }
        proof {
            assert(trees(words@) =~= v_words(texts(justify@)));
        }
        push_tree(&mut items, node("justify", words));
    }
    if hide {
        push_tree(&mut items, node1("hide", sym("yes")));
    }
    proof {
        assert(trees(items@) =~= seq![v_font()] + (if texts(justify@).len() > 0 {
            seq![v_node("justify"@, v_words(texts(justify@)))]
        } else {
            Seq::empty()
        }) + (if hide {
            seq![v_one("hide"@, v_word("yes"@))]
        } else {
            Seq::empty()
        }));
    }
    node("effects", items)
}

pub open spec fn v_stroke() -> SexprView {
    v_node("stroke"@, seq![v_one("width"@, v_int(0)), v_one("type"@, v_word("default"@))])
}

pub(crate) fn stroke() -> (r: Sexpr)
    ensures
        r@ == v_stroke(),
{
    node2("stroke", node1("width", int_node(0)), node1("type", sym("default")))
}

pub open spec fn v_property(
    name: Seq<char>,
    value: Seq<char>,
    at: Point,
    angle: int,
    justify: Seq<Seq<char>>,
    hide: bool,
) -> SexprView {
    v_node(
        "property"@,
        seq![v_text(name), v_text(value), v_at_turned(at, angle), v_effects(justify, hide)],
    )
}

pub(crate) fn property(name: &str, value: &str, at: Point, angle: i32, justify: &[&str], hide: bool) -> (r: Sexpr)
    ensures
        r@ == v_property(name@, value@, at, angle as int, texts(justify@), hide),
{
    node4(
        "property",
        sstr(name),
        sstr(value),
        at_turned_node(at, angle),
        effects(justify, hide),
    )
}

/// A property without any justification.
pub open spec fn v_plain_property(name: Seq<char>, value: Seq<char>, at: Point, hide: bool) -> SexprView {
    v_property(name, value, at, 0, Seq::empty(), hide)
}

pub(crate) fn plain_property(name: &str, value: &str, at: Point, hide: bool) -> (r: Sexpr)
    ensures
        r@ == v_plain_property(name@, value@, at, hide),
{
    let none: Vec<&str> = Vec::new();
    proof {
        assert(texts(none@) =~= Seq::empty());
    }
    property(name, value, at, 0, none.as_slice(), hide)
}

pub open spec fn v_uuid(id: Seq<char>) -> SexprView {
    v_one("uuid"@, v_text(id))
}

pub(crate) fn uuid_node(id: &String) -> (r: Sexpr)
    ensures
        r@ == v_uuid(id@),
{
    node1("uuid", sstr(id.as_str()))
}

/// A position as part of a key.
pub open spec fn xy_text(p: Point) -> Seq<char> {
    mm_text(p.x as int) + seq![','] + mm_text(p.y as int)
}

pub(crate) fn to_xy_text(p: Point) -> (r: String)
    ensures
        r@ == xy_text(p),
{
    let mut v: Vec<char> = to_mm_text(p.x);
    v.push(',');
    append_chars(&mut v, &to_mm_text(p.y));
    proof {
        assert(v@ =~= xy_text(p));
    }
    text_of(&v)
}

pub open spec fn v_polyline(points: Seq<Point>) -> SexprView {
    v_node(
        "polyline"@,
        seq![
            v_node("pts"@, Seq::new(points.len(), |i: int| v_xy(points[i]))),
            v_stroke(),
            v_one("fill"@, v_one("type"@, v_word("none"@))),
        ],
    )
}

fn polyline(points: &Vec<Point>) -> (r: Sexpr)
    ensures
        r@ == v_polyline(points@),
{
    let mut items: Vec<Sexpr> = Vec::new();
    let ghost want = Seq::new(points@.len(), |i: int| v_xy(points@[i]));
    let mut n: usize = 0;
    proof {
        assert(trees(items@) =~= want.take(0));
    }
    while n < points.len()
        invariant
            n <= points.len(),
            want == Seq::new(points@.len(), |i: int| v_xy(points@[i])),
            trees(items@) =~= want.take(n as int),
        decreases points.len() - n,
    {
        push_tree(&mut items, xy_node(points[n]));
        n = n + 1;
    }
    proof {
        assert(trees(items@) =~= want);
    }
    node3(
        "polyline",
        node("pts", items),
        stroke(),
        node1("fill", node1("type", sym("none"))),
    )
}

// ---------------------------------------------------------------- generated power symbols

/// The part of a library id behind the library.
pub open spec fn base_name(lib_id: Seq<char>) -> Seq<char> {
    match place_of_char(lib_id, ':', 0) {
        Some(p) => lib_id.skip(p + 1),
        None => lib_id,
    }
}

/// The part of a library id behind the library.
pub fn unit_base_name(lib_id: &str) -> (r: String)
    ensures
        r@ == base_name(lib_id@),
{
    let s: Vec<char> = chars_of(lib_id);
    match find_char(&s, ':', 0) {
        Some(p) => text_of(&skip_chars(&s, p + 1)),
        None => lib_id.to_owned(),
    }
}

/// The drawing of a power symbol: a triangle that hangs, or an arrow that stands.
pub open spec fn power_drawing(down: bool) -> Seq<SexprView> {
    if down {
        seq![
            v_polyline(
                seq![
                    pt(0, 0),
                    pt(0, -12700),
                    pt(12700, -12700),
                    pt(0, -25400),
                    pt(-12700, -12700),
                    pt(0, -12700),
                ],
            ),
        ]
    } else {
        seq![
            v_polyline(seq![pt(-7620, 12700), pt(0, 25400)]),
            v_polyline(seq![pt(0, 25400), pt(7620, 12700)]),
            v_polyline(seq![pt(0, 0), pt(0, 25400)]),
        ]
    }
}

/// The pin of a power symbol.
pub open spec fn v_power_pin(etype: Seq<char>, angle: int) -> SexprView {
    v_node(
        "pin"@,
        seq![
            v_word(etype),
            v_word("line"@),
            v_node("at"@, seq![v_int(0), v_int(0), v_int(angle)]),
            v_one("length"@, v_int(0)),
            v_node("name"@, seq![v_text(""@), v_plain_effects()]),
            v_node("number"@, seq![v_text("1"@), v_plain_effects()]),
        ],
    )
}

/// What every generated symbol starts with.
pub open spec fn v_power_head(lib_id: Seq<char>) -> Seq<SexprView> {
    seq![
        v_text(lib_id),
        v_one("power"@, v_word("global"@)),
        v_one("pin_numbers"@, v_one("hide"@, v_word("yes"@))),
        v_node(
            "pin_names"@,
            seq![v_one("offset"@, v_int(0)), v_one("hide"@, v_word("yes"@))],
        ),
        v_one("exclude_from_sim"@, v_word("no"@)),
        v_one("in_bom"@, v_word("yes"@)),
        v_one("on_board"@, v_word("yes"@)),
    ]
}

/// The library symbol of a rail: its value makes the net.
pub open spec fn v_power_symbol(lib_id: Seq<char>, net: Seq<char>, down: bool) -> SexprView {
    let base = base_name(lib_id);
    let (ref_y, value_y, angle) = if down {
        (-63500int, -38100int, 270int)
    } else {
        (-38100int, 35560int, 90int)
    };
    v_node(
        "symbol"@,
        v_power_head(lib_id) + seq![
            v_plain_property("Reference"@, "#PWR"@, pt(0, ref_y), true),
            v_plain_property("Value"@, net, pt(0, value_y), false),
            v_node("symbol"@, seq![v_text(base + "_0_1"@)] + power_drawing(down)),
            v_node("symbol"@, seq![v_text(base + "_1_1"@), v_power_pin("power_in"@, angle)]),
        ],
    )
}

/// The library symbol of the flag that declares a rail driven.
pub open spec fn v_flag_symbol(lib_id: Seq<char>) -> SexprView {
    v_node(
        "symbol"@,
        v_power_head(lib_id) + seq![
            v_plain_property("Reference"@, "#FLG"@, pt(0, 19050), true),
            v_plain_property("Value"@, "PWR_FLAG"@, pt(0, 38100), true),
            v_node(
                "symbol"@,
                seq![
                    v_text("PWR_FLAG_0_1"@),
                    v_polyline(
                        seq![
                            pt(0, 0),
                            pt(0, 12700),
                            pt(-10160, 19050),
                            pt(0, 25400),
                            pt(10160, 19050),
                            pt(0, 12700),
                        ],
                    ),
                ],
            ),
            v_node("symbol"@, seq![v_text("PWR_FLAG_1_1"@), v_power_pin("power_out"@, 90)]),
        ],
    )
}

fn power_pin(etype: &str, angle: i32) -> (r: Sexpr)
    ensures
        r@ == v_power_pin(etype@, angle as int),
{
    let mut items: Vec<Sexpr> = Vec::new();
    push_tree(&mut items, sym(etype));
    push_tree(&mut items, sym("line"));
    push_tree(&mut items, node3("at", int_node(0), int_node(0), int_node(angle as i64)));
    push_tree(&mut items, node1("length", int_node(0)));
    push_tree(&mut items, node2("name", sstr(""), plain_effects()));
    push_tree(&mut items, node2("number", sstr("1"), plain_effects()));
    let r: Sexpr = node("pin", items);
    proof {
        assert(r@->List_0 =~= v_power_pin(etype@, angle as int)->List_0);
    }
    r
}

fn power_head(lib_id: &str) -> (r: Vec<Sexpr>)
    ensures
        trees(r@) == v_power_head(lib_id@),
{
    let mut items: Vec<Sexpr> = Vec::new();
    push_tree(&mut items, sstr(lib_id));
    push_tree(&mut items, node1("power", sym("global")));
    push_tree(&mut items, node1("pin_numbers", node1("hide", sym("yes"))));
    push_tree(
        &mut items,
        node2("pin_names", node1("offset", int_node(0)), node1("hide", sym("yes"))),
    );
    push_tree(&mut items, node1("exclude_from_sim", sym("no")));
    push_tree(&mut items, node1("in_bom", sym("yes")));
    push_tree(&mut items, node1("on_board", sym("yes")));
    proof {
        assert(trees(items@) =~= v_power_head(lib_id@));
    }
    items
}

fn draw_power(down: bool) -> (r: Vec<Sexpr>)
    ensures
        trees(r@) == power_drawing(down),
{
    let mut items: Vec<Sexpr> = Vec::new();
    if down {
        let points: Vec<Point> = vec![
            Point { x: 0, y: 0 },
            Point { x: 0, y: -12700 },
            Point { x: 12700, y: -12700 },
            Point { x: 0, y: -25400 },
            Point { x: -12700, y: -12700 },
            Point { x: 0, y: -12700 },
        ];
        proof {
            assert(points@ =~= seq![
                pt(0, 0),
                pt(0, -12700),
                pt(12700, -12700),
                pt(0, -25400),
                pt(-12700, -12700),
                pt(0, -12700),
            ]);
        }
        push_tree(&mut items, polyline(&points));
    } else {
        let left: Vec<Point> = vec![Point { x: -7620, y: 12700 }, Point { x: 0, y: 25400 }];
        let right: Vec<Point> = vec![Point { x: 0, y: 25400 }, Point { x: 7620, y: 12700 }];
        let shaft: Vec<Point> = vec![Point { x: 0, y: 0 }, Point { x: 0, y: 25400 }];
        proof {
            assert(left@ =~= seq![pt(-7620, 12700), pt(0, 25400)]);
            assert(right@ =~= seq![pt(0, 25400), pt(7620, 12700)]);
            assert(shaft@ =~= seq![pt(0, 0), pt(0, 25400)]);
        }
        push_tree(&mut items, polyline(&left));
        push_tree(&mut items, polyline(&right));
        push_tree(&mut items, polyline(&shaft));
    }
    proof {
        assert(trees(items@) =~= power_drawing(down));
    }
    items
}

pub(crate) fn with_suffix(base: &str, suffix: &str) -> (r: String)
    ensures
        r@ == base@ + suffix@,
{
    let mut v: Vec<char> = chars_of(base);
    append_chars(&mut v, &chars_of(suffix));
    text_of(&v)
}

pub(crate) fn build_power_lib_symbol(lib_id: &str, net_name: &str, down: bool) -> (r: Sexpr)
    ensures
        r@ == v_power_symbol(lib_id@, net_name@, down),
{
    let base: String = unit_base_name(lib_id);
    let (ref_y, value_y, angle): (Iu, Iu, i32) = if down {
        (-63500, -38100, 270)
    } else {
        (-38100, 35560, 90)
    };
    let mut items: Vec<Sexpr> = power_head(lib_id);
    push_tree(
        &mut items,
        plain_property("Reference", "#PWR", Point { x: 0, y: ref_y }, true),
    );
    push_tree(&mut items, plain_property("Value", net_name, Point { x: 0, y: value_y }, false));
    let mut drawn: Vec<Sexpr> = Vec::new();
    push_tree(&mut drawn, sstr(with_suffix(base.as_str(), "_0_1").as_str()));
    push_copies(&mut drawn, &draw_power(down));
    proof {
        assert(trees(drawn@) =~= seq![v_text(base@ + "_0_1"@)] + power_drawing(down));
    }
    push_tree(&mut items, node("symbol", drawn));
    push_tree(
        &mut items,
        node2(
            "symbol",
            sstr(with_suffix(base.as_str(), "_1_1").as_str()),
            power_pin("power_in", angle),
        ),
    );
    let r: Sexpr = node("symbol", items);
    proof {
        assert(r@->List_0 =~= v_power_symbol(lib_id@, net_name@, down)->List_0);
    }
    r
}

pub(crate) fn build_pwr_flag_lib_symbol(lib_id: &str) -> (r: Sexpr)
    ensures
        r@ == v_flag_symbol(lib_id@),
{
    let points: Vec<Point> = vec![
        Point { x: 0, y: 0 },
        Point { x: 0, y: 12700 },
        Point { x: -10160, y: 19050 },
        Point { x: 0, y: 25400 },
        Point { x: 10160, y: 19050 },
        Point { x: 0, y: 12700 },
    ];
    proof {
        assert(points@ =~= seq![
            pt(0, 0),
            pt(0, 12700),
            pt(-10160, 19050),
            pt(0, 25400),
            pt(10160, 19050),
            pt(0, 12700),
        ]);
    }
    let mut items: Vec<Sexpr> = power_head(lib_id);
    push_tree(&mut items, plain_property("Reference", "#FLG", Point { x: 0, y: 19050 }, true));
    push_tree(&mut items, plain_property("Value", "PWR_FLAG", Point { x: 0, y: 38100 }, true));
    push_tree(&mut items, node2("symbol", sstr("PWR_FLAG_0_1"), polyline(&points)));
    push_tree(&mut items, node2("symbol", sstr("PWR_FLAG_1_1"), power_pin("power_out", 90)));
    let r: Sexpr = node("symbol", items);
    proof {
        assert(r@->List_0 =~= v_flag_symbol(lib_id@)->List_0);
    }
    r
}

} // verus!
