//! Reading a written document: the elements of a list by their tag, and what they say.

use vstd::prelude::*;
use crate::document::{pin_nodes, symbol_head, v_field, v_mirror, v_uses, PlaceView, WriterView};
use crate::geometry::MirrorAxis;
use crate::nodes::{v_at, v_at_turned, v_int, v_node, v_text, v_word};
use crate::sexpr::{is_tagged, SexprView};
use crate::units::Point;
use crate::uuid::UuidGenView;
use crate::writer::{all_written, level_angle, v_effects, v_property, PortDirection};

verus! {

// ---------------------------------------------------------------- elements by their tag

/// What a list holds.
pub open spec fn items_of(node: SexprView) -> Seq<SexprView> {
    match node {
        SexprView::List(v) => v,
        _ => Seq::empty(),
    }
}

/// The lists among the items that start with the word, in order.
pub open spec fn elements(v: Seq<SexprView>, tag: Seq<char>) -> Seq<SexprView>
    decreases v.len(),
{
    if v.len() == 0 {
        Seq::empty()
    } else if is_tagged(v.last(), tag) {
        elements(v.drop_last(), tag).push(v.last())
    } else {
        elements(v.drop_last(), tag)
    }
}

/// The lists inside the node that start with the word.
pub open spec fn inside(node: SexprView, tag: Seq<char>) -> Seq<SexprView> {
    elements(items_of(node), tag)
}

pub broadcast proof fn lemma_elements_empty(tag: Seq<char>)
    ensures
        #[trigger] elements(Seq::<SexprView>::empty(), tag) == Seq::<SexprView>::empty(),
{
}

pub broadcast proof fn lemma_elements_push(v: Seq<SexprView>, x: SexprView, tag: Seq<char>)
    ensures
        #[trigger] elements(v.push(x), tag) == if is_tagged(x, tag) {
            elements(v, tag).push(x)
        } else {
            elements(v, tag)
        },
{
    assert(v.push(x).drop_last() =~= v);
}

pub broadcast proof fn lemma_elements_add(a: Seq<SexprView>, b: Seq<SexprView>, tag: Seq<char>)
    ensures
        #[trigger] elements(a + b, tag) == elements(a, tag) + elements(b, tag),
    decreases b.len(),
{
    if b.len() == 0 {
        assert(a + b =~= a);
        assert(elements(a, tag) + elements(b, tag) =~= elements(a, tag));
    } else {
        lemma_elements_add(a, b.drop_last(), tag);
        assert((a + b).drop_last() =~= a + b.drop_last());
        assert((a + b).last() == b.last());
        assert(elements(a + b, tag) =~= elements(a, tag) + elements(b, tag));
    }
}

pub broadcast proof fn lemma_node_tag(name: Seq<char>, items: Seq<SexprView>, tag: Seq<char>)
    ensures
        #[trigger] is_tagged(v_node(name, items), tag) == (name == tag),
{
    let all = seq![SexprView::Symbol(name)] + items;
    assert(all[0] == SexprView::Symbol(name));
}

pub broadcast proof fn lemma_node_inside(name: Seq<char>, items: Seq<SexprView>, tag: Seq<char>)
    ensures
        #[trigger] inside(v_node(name, items), tag) == elements(items, tag),
{
    lemma_elements_add(seq![SexprView::Symbol(name)], items, tag);
    lemma_elements_push(Seq::empty(), SexprView::Symbol(name), tag);
    assert(elements(seq![SexprView::Symbol(name)], tag) =~= Seq::empty());
    assert(Seq::<SexprView>::empty() + elements(items, tag) =~= elements(items, tag));
}

pub proof fn lemma_two(a: SexprView, b: SexprView)
    ensures
        seq![a, b] == Seq::<SexprView>::empty().push(a).push(b),
{
    assert(seq![a, b] =~= Seq::<SexprView>::empty().push(a).push(b));
}

pub proof fn lemma_three(a: SexprView, b: SexprView, c: SexprView)
    ensures
        seq![a, b, c] == Seq::<SexprView>::empty().push(a).push(b).push(c),
{
    assert(seq![a, b, c] =~= Seq::<SexprView>::empty().push(a).push(b).push(c));
}

pub proof fn lemma_four(a: SexprView, b: SexprView, c: SexprView, d: SexprView)
    ensures
        seq![a, b, c, d] == Seq::<SexprView>::empty().push(a).push(b).push(c).push(d),
{
    assert(seq![a, b, c, d] =~= Seq::<SexprView>::empty().push(a).push(b).push(c).push(d));
}

pub proof fn lemma_five(a: SexprView, b: SexprView, c: SexprView, d: SexprView, e: SexprView)
    ensures
        seq![a, b, c, d, e] == Seq::<SexprView>::empty().push(a).push(b).push(c).push(d).push(e),
{
    assert(seq![a, b, c, d, e] =~= Seq::<SexprView>::empty().push(a).push(b).push(c).push(d).push(e));
}

pub proof fn lemma_six(a: SexprView, b: SexprView, c: SexprView, d: SexprView, e: SexprView, f: SexprView)
    ensures
        seq![a, b, c, d, e, f] == Seq::<SexprView>::empty().push(a).push(b).push(c).push(d).push(e).push(f),
{
    assert(seq![a, b, c, d, e, f] =~= Seq::<SexprView>::empty().push(a).push(b).push(c).push(d).push(e).push(f));
}

pub broadcast group group_reading {
    lemma_elements_empty,
    lemma_elements_push,
    lemma_elements_add,
    lemma_node_tag,
    lemma_node_inside,
}

/// All items start with the word.
pub open spec fn all_tagged(v: Seq<SexprView>, tag: Seq<char>) -> bool {
    forall|i: int| 0 <= i < v.len() ==> is_tagged(#[trigger] v[i], tag)
}

pub proof fn lemma_elements_all(v: Seq<SexprView>, own: Seq<char>, tag: Seq<char>)
    requires
        all_tagged(v, own),
    ensures
        elements(v, tag) == if own == tag {
            v
        } else {
            Seq::empty()
        },
    decreases v.len(),
{
    if v.len() > 0 {
        assert forall|i: int| 0 <= i < v.drop_last().len() implies is_tagged(
            #[trigger] v.drop_last()[i],
            own,
        ) by {
            assert(is_tagged(v[i], own));
        }
        lemma_elements_all(v.drop_last(), own, tag);
        assert(is_tagged(v[v.len() - 1], own));
        assert(v.drop_last().push(v.last()) =~= v);
    } else {
        assert(v =~= Seq::empty());
    }
}

// ---------------------------------------------------------------- what an element says

/// The only place that the element names is the point.
pub open spec fn stands_at(node: SexprView, p: Point) -> bool {
    inside(node, "at"@) == seq![
        SexprView::List(
            seq![
                SexprView::Symbol("at"@),
                SexprView::Num(p.x as int),
                SexprView::Num(p.y as int),
            ],
        ),
    ]
}

/// The only place that the element names is the point, and it is turned by the angle.
pub open spec fn stands_turned(node: SexprView, p: Point, angle: int) -> bool {
    inside(node, "at"@) == seq![
        SexprView::List(
            seq![
                SexprView::Symbol("at"@),
                SexprView::Num(p.x as int),
                SexprView::Num(p.y as int),
                SexprView::Int(angle),
            ],
        ),
    ]
}

/// The text that follows the tag of the element.
pub open spec fn says(node: SexprView, text: Seq<char>) -> bool {
    items_of(node).len() > 1 && items_of(node)[1] == SexprView::Str(text)
}

/// The element holds one list of a tag and one text.
pub open spec fn says_under(node: SexprView, tag: Seq<char>, text: Seq<char>) -> bool {
    inside(node, tag) == seq![
        SexprView::List(seq![SexprView::Symbol(tag), SexprView::Str(text)]),
    ]
}

/// The element holds one list of a tag and one word.
pub open spec fn chooses(node: SexprView, tag: Seq<char>, word: Seq<char>) -> bool {
    inside(node, tag) == seq![
        SexprView::List(seq![SexprView::Symbol(tag), SexprView::Symbol(word)]),
    ]
}

/// The word for a direction.
pub open spec fn direction_word(d: PortDirection) -> Seq<char> {
    match d {
        PortDirection::Input => "input"@,
        PortDirection::Output => "output"@,
        PortDirection::Bidirectional => "bidirectional"@,
    }
}

/// The element is a straight wire between the two points.
pub open spec fn runs_between(node: SexprView, a: Point, b: Point) -> bool {
    inside(node, "pts"@) == seq![
        SexprView::List(
            seq![
                SexprView::Symbol("pts"@),
                SexprView::List(
                    seq![
                        SexprView::Symbol("xy"@),
                        SexprView::Num(a.x as int),
                        SexprView::Num(a.y as int),
                    ],
                ),
                SexprView::List(
                    seq![
                        SexprView::Symbol("xy"@),
                        SexprView::Num(b.x as int),
                        SexprView::Num(b.y as int),
                    ],
                ),
            ],
        ),
    ]
}

/// The property is the named one, with the value at the place.
pub open spec fn is_property(node: SexprView, name: Seq<char>, value: Seq<char>, at: Point) -> bool {
    &&& is_tagged(node, "property"@)
    &&& says(node, name)
    &&& items_of(node).len() > 2
    &&& items_of(node)[2] == SexprView::Str(value)
    &&& exists|angle: int| #[trigger] stands_turned(node, at, angle)
}

/// The first property of the element is its reference, and the second is its value.
pub open spec fn labels_itself(
    node: SexprView,
    reference: Seq<char>,
    ref_at: Point,
    value: Seq<char>,
    value_at: Point,
) -> bool {
    let ps = inside(node, "property"@);
    &&& ps.len() >= 2
    &&& is_property(ps[0], "Reference"@, reference, ref_at)
    &&& is_property(ps[1], "Value"@, value, value_at)
}

/// The way the element is mirrored.
pub open spec fn mirrored(node: SexprView, mirror: Option<MirrorAxis>) -> bool {
    match mirror {
        Some(MirrorAxis::X) => chooses(node, "mirror"@, "x"@),
        Some(MirrorAxis::Y) => chooses(node, "mirror"@, "y"@),
        None => inside(node, "mirror"@).len() == 0,
    }
}

// ---------------------------------------------------------------- words

/// What tells the tags apart.
pub proof fn lemma_tags()
    ensures
        "version"@.len() == 7 && "version"@[0] == 'v' && "version"@[1] == 'e' && "version"@[2] == 'r',
        "generator"@.len() == 9 && "generator"@[0] == 'g' && "generator"@[1] == 'e' && "generator"@[2] == 'n',
        "generator_version"@.len() == 17 && "generator_version"@[0] == 'g' && "generator_version"@[1] == 'e' && "generator_version"@[2] == 'n',
        "uuid"@.len() == 4 && "uuid"@[0] == 'u' && "uuid"@[1] == 'u' && "uuid"@[2] == 'i',
        "paper"@.len() == 5 && "paper"@[0] == 'p' && "paper"@[1] == 'a' && "paper"@[2] == 'p',
        "title_block"@.len() == 11 && "title_block"@[0] == 't' && "title_block"@[1] == 'i' && "title_block"@[2] == 't',
        "lib_symbols"@.len() == 11 && "lib_symbols"@[0] == 'l' && "lib_symbols"@[1] == 'i' && "lib_symbols"@[2] == 'b',
        "junction"@.len() == 8 && "junction"@[0] == 'j' && "junction"@[1] == 'u' && "junction"@[2] == 'n',
        "no_connect"@.len() == 10 && "no_connect"@[0] == 'n' && "no_connect"@[1] == 'o' && "no_connect"@[2] == '_',
        "wire"@.len() == 4 && "wire"@[0] == 'w' && "wire"@[1] == 'i' && "wire"@[2] == 'r',
        "label"@.len() == 5 && "label"@[0] == 'l' && "label"@[1] == 'a' && "label"@[2] == 'b',
        "global_label"@.len() == 12 && "global_label"@[0] == 'g' && "global_label"@[1] == 'l' && "global_label"@[2] == 'o',
        "hierarchical_label"@.len() == 18 && "hierarchical_label"@[0] == 'h' && "hierarchical_label"@[1] == 'i' && "hierarchical_label"@[2] == 'e',
        "text"@.len() == 4 && "text"@[0] == 't' && "text"@[1] == 'e' && "text"@[2] == 'x',
        "rectangle"@.len() == 9 && "rectangle"@[0] == 'r' && "rectangle"@[1] == 'e' && "rectangle"@[2] == 'c',
        "symbol"@.len() == 6 && "symbol"@[0] == 's' && "symbol"@[1] == 'y' && "symbol"@[2] == 'm',
        "sheet"@.len() == 5 && "sheet"@[0] == 's' && "sheet"@[1] == 'h' && "sheet"@[2] == 'e',
        "sheet_instances"@.len() == 15 && "sheet_instances"@[0] == 's' && "sheet_instances"@[1] == 'h' && "sheet_instances"@[2] == 'e',
        "embedded_fonts"@.len() == 14 && "embedded_fonts"@[0] == 'e' && "embedded_fonts"@[1] == 'm' && "embedded_fonts"@[2] == 'b',
        "at"@.len() == 2 && "at"@[0] == 'a' && "at"@[1] == 't',
        "xy"@.len() == 2 && "xy"@[0] == 'x' && "xy"@[1] == 'y',
        "pts"@.len() == 3 && "pts"@[0] == 'p' && "pts"@[1] == 't' && "pts"@[2] == 's',
        "pin"@.len() == 3 && "pin"@[0] == 'p' && "pin"@[1] == 'i' && "pin"@[2] == 'n',
        "dnp"@.len() == 3 && "dnp"@[0] == 'd' && "dnp"@[1] == 'n' && "dnp"@[2] == 'p',
        "unit"@.len() == 4 && "unit"@[0] == 'u' && "unit"@[1] == 'n' && "unit"@[2] == 'i',
        "size"@.len() == 4 && "size"@[0] == 's' && "size"@[1] == 'i' && "size"@[2] == 'z',
        "fill"@.len() == 4 && "fill"@[0] == 'f' && "fill"@[1] == 'i' && "fill"@[2] == 'l',
        "shape"@.len() == 5 && "shape"@[0] == 's' && "shape"@[1] == 'h' && "shape"@[2] == 'a',
        "color"@.len() == 5 && "color"@[0] == 'c' && "color"@[1] == 'o' && "color"@[2] == 'l',
        "start"@.len() == 5 && "start"@[0] == 's' && "start"@[1] == 't' && "start"@[2] == 'a',
        "end"@.len() == 3 && "end"@[0] == 'e' && "end"@[1] == 'n' && "end"@[2] == 'd',
        "lib_id"@.len() == 6 && "lib_id"@[0] == 'l' && "lib_id"@[1] == 'i' && "lib_id"@[2] == 'b',
        "mirror"@.len() == 6 && "mirror"@[0] == 'm' && "mirror"@[1] == 'i' && "mirror"@[2] == 'r',
        "in_bom"@.len() == 6 && "in_bom"@[0] == 'i' && "in_bom"@[1] == 'n' && "in_bom"@[2] == '_',
        "stroke"@.len() == 6 && "stroke"@[0] == 's' && "stroke"@[1] == 't' && "stroke"@[2] == 'r',
        "effects"@.len() == 7 && "effects"@[0] == 'e' && "effects"@[1] == 'f' && "effects"@[2] == 'f',
        "on_board"@.len() == 8 && "on_board"@[0] == 'o' && "on_board"@[1] == 'n' && "on_board"@[2] == '_',
        "diameter"@.len() == 8 && "diameter"@[0] == 'd' && "diameter"@[1] == 'i' && "diameter"@[2] == 'a',
        "property"@.len() == 8 && "property"@[0] == 'p' && "property"@[1] == 'r' && "property"@[2] == 'o',
        "instances"@.len() == 9 && "instances"@[0] == 'i' && "instances"@[1] == 'n' && "instances"@[2] == 's',
        "exclude_from_sim"@.len() == 16 && "exclude_from_sim"@[0] == 'e' && "exclude_from_sim"@[1] == 'x' && "exclude_from_sim"@[2] == 'c',
{
    reveal_strlit("version");
    reveal_strlit("generator");
    reveal_strlit("generator_version");
    reveal_strlit("uuid");
    reveal_strlit("paper");
    reveal_strlit("title_block");
    reveal_strlit("lib_symbols");
    reveal_strlit("junction");
    reveal_strlit("no_connect");
    reveal_strlit("wire");
    reveal_strlit("label");
    reveal_strlit("global_label");
    reveal_strlit("hierarchical_label");
    reveal_strlit("text");
    reveal_strlit("rectangle");
    reveal_strlit("symbol");
    reveal_strlit("sheet");
    reveal_strlit("sheet_instances");
    reveal_strlit("embedded_fonts");
    reveal_strlit("at");
    reveal_strlit("xy");
    reveal_strlit("pts");
    reveal_strlit("pin");
    reveal_strlit("dnp");
    reveal_strlit("unit");
    reveal_strlit("size");
    reveal_strlit("fill");
    reveal_strlit("shape");
    reveal_strlit("color");
    reveal_strlit("start");
    reveal_strlit("end");
    reveal_strlit("lib_id");
    reveal_strlit("mirror");
    reveal_strlit("in_bom");
    reveal_strlit("stroke");
    reveal_strlit("effects");
    reveal_strlit("on_board");
    reveal_strlit("diameter");
    reveal_strlit("property");
    reveal_strlit("instances");
    reveal_strlit("exclude_from_sim");
}

// ---------------------------------------------------------------- placed symbols

pub proof fn lemma_at(p: Point, angle: int)
    ensures
        v_at(p) == SexprView::List(
            seq![
                SexprView::Symbol("at"@),
                SexprView::Num(p.x as int),
                SexprView::Num(p.y as int),
            ],
        ),
        v_at_turned(p, angle) == SexprView::List(
            seq![
                SexprView::Symbol("at"@),
                SexprView::Num(p.x as int),
                SexprView::Num(p.y as int),
                SexprView::Int(angle),
            ],
        ),
{
    assert(v_at(p)->List_0 =~= seq![
        SexprView::Symbol("at"@),
        SexprView::Num(p.x as int),
        SexprView::Num(p.y as int),
    ]);
    assert(v_at_turned(p, angle)->List_0 =~= seq![
        SexprView::Symbol("at"@),
        SexprView::Num(p.x as int),
        SexprView::Num(p.y as int),
        SexprView::Int(angle),
    ]);
}

pub proof fn lemma_pair(tag: Seq<char>, x: SexprView)
    ensures
        v_node(tag, seq![x]) == SexprView::List(seq![SexprView::Symbol(tag), x]),
{
    assert(v_node(tag, seq![x])->List_0 =~= seq![SexprView::Symbol(tag), x]);
}

pub proof fn lemma_property(
    name: Seq<char>,
    value: Seq<char>,
    at: Point,
    angle: int,
    justify: Seq<Seq<char>>,
    hide: bool,
)
    ensures
        is_property(v_property(name, value, at, angle, justify, hide), name, value, at),
{
    broadcast use group_reading;

    lemma_tags();
    lemma_at(at, angle);
    let node = v_property(name, value, at, angle, justify, hide);
    lemma_four(
        v_text(name),
        v_text(value),
        v_at_turned(at, angle),
        v_effects(justify, hide),
    );
    assert(inside(node, "at"@) =~= seq![v_at_turned(at, angle)]);
    assert(stands_turned(node, at, angle));
}

pub proof fn lemma_pin_nodes(u: UuidGenView, key: Seq<char>, pins: Seq<Seq<char>>, n: int)
    ensures
        all_tagged(pin_nodes(u, key, pins, n).0, "pin"@),
    decreases n,
{
    broadcast use group_reading;

    if 0 < n <= pins.len() {
        lemma_pin_nodes(u, key, pins, n - 1);
    }
}

proof fn lemma_uses(dnp: bool)
    ensures
        v_uses(dnp) == Seq::<SexprView>::empty().push(
            v_node("exclude_from_sim"@, seq![v_word("no"@)]),
        ).push(v_node("in_bom"@, seq![v_word("yes"@)])).push(
            v_node("on_board"@, seq![v_word("yes"@)]),
        ).push(
            v_node(
                "dnp"@,
                seq![
                    v_word(
                        if dnp {
                            "yes"@
                        } else {
                            "no"@
                        },
                    ),
                ],
            ),
        ),
{
    assert(v_uses(dnp) =~= Seq::<SexprView>::empty().push(
        v_node("exclude_from_sim"@, seq![v_word("no"@)]),
    ).push(v_node("in_bom"@, seq![v_word("yes"@)])).push(
        v_node("on_board"@, seq![v_word("yes"@)]),
    ).push(
        v_node(
            "dnp"@,
            seq![
                v_word(
                    if dnp {
                        "yes"@
                    } else {
                        "no"@
                    },
                ),
            ],
        ),
    ));
}

/// The lists of a tag in what a placed symbol says of its use.
pub proof fn lemma_uses_tag(dnp: bool, tag: Seq<char>)
    ensures
        tag == "dnp"@ ==> elements(v_uses(dnp), tag) == seq![
            v_node(
                "dnp"@,
                seq![
                    v_word(
                        if dnp {
                            "yes"@
                        } else {
                            "no"@
                        },
                    ),
                ],
            ),
        ],
        tag == "lib_id"@ || tag == "at"@ || tag == "mirror"@ || tag == "property"@ || tag == "pin"@
            || tag == "size"@ || tag == "uuid"@ ==> elements(v_uses(dnp), tag) == Seq::<SexprView>::empty(),
{
    broadcast use group_reading;

    lemma_tags();
    lemma_uses(dnp);
}

proof fn lemma_fields_tag(name: Seq<char>, value: Option<Seq<char>>, at: Point, tag: Seq<char>)
    requires
        tag != "property"@,
    ensures
        elements(v_field(name, value, at), tag) == Seq::<SexprView>::empty(),
{
    broadcast use group_reading;

}

proof fn lemma_mirror_tag(mirror: Option<MirrorAxis>, tag: Seq<char>)
    ensures
        elements(v_mirror(mirror), tag) == if tag == "mirror"@ {
            v_mirror(mirror)
        } else {
            Seq::empty()
        },
{
    broadcast use group_reading;

    assert(elements(v_mirror(mirror), tag) =~= if tag == "mirror"@ {
        v_mirror(mirror)
    } else {
        Seq::empty()
    });
}

/// What a placed symbol holds of a tag, apart from its properties.
proof fn lemma_head_tag(o: PlaceView, id: Seq<char>, tag: Seq<char>)
    requires
        tag == "lib_id"@ || tag == "at"@ || tag == "mirror"@ || tag == "dnp"@,
    ensures
        tag == "lib_id"@ ==> elements(symbol_head(o, id), tag) == seq![
            v_node("lib_id"@, seq![v_text(o.lib_id)]),
        ],
        tag == "at"@ ==> elements(symbol_head(o, id), tag) == seq![
            v_at_turned(o.at, o.rotation as int),
        ],
        tag == "mirror"@ ==> elements(symbol_head(o, id), tag) == v_mirror(o.mirror),
        tag == "dnp"@ ==> elements(symbol_head(o, id), tag) == elements(v_uses(o.dnp), tag),
{
    broadcast use group_reading;

    reveal(symbol_head);
    lemma_tags();
    lemma_uses_tag(o.dnp, tag);
    lemma_mirror_tag(o.mirror, tag);
    lemma_fields_tag("Footprint"@, o.footprint, o.at, tag);
    lemma_fields_tag("Datasheet"@, o.datasheet, o.at, tag);
    lemma_fields_tag("Description"@, o.description, o.at, tag);
    lemma_fields_tag("MPN"@, o.mpn, o.at, tag);
    let got = elements(symbol_head(o, id), tag);
    if tag == "lib_id"@ {
        assert(got =~= seq![v_node("lib_id"@, seq![v_text(o.lib_id)])]);
    } else if tag == "at"@ {
        assert(got =~= seq![v_at_turned(o.at, o.rotation as int)]);
    } else if tag == "mirror"@ {
        assert(got =~= v_mirror(o.mirror));
    } else {
        assert(got =~= elements(v_uses(o.dnp), tag));
    }
}

/// The first two properties of a placed symbol.
proof fn lemma_head_properties(o: PlaceView, id: Seq<char>)
    requires
        o.ref_at is Some,
        o.value_at is Some,
    ensures
        ({
            let ps = elements(symbol_head(o, id), "property"@);
            &&& ps.len() >= 2
            &&& is_property(ps[0], "Reference"@, o.reference, o.ref_at->0)
            &&& is_property(ps[1], "Value"@, o.value, o.value_at->0)
        }),
{
    broadcast use group_reading;

    reveal(symbol_head);
    lemma_tags();
    lemma_uses_tag(o.dnp, "property"@);
    lemma_mirror_tag(o.mirror, "property"@);
    let angle = level_angle(o.rotation as int);
    let rj = all_written(o.ref_justify, o.rotation as int, o.mirror);
    let vj = all_written(o.value_justify, o.rotation as int, o.mirror);
    lemma_property("Reference"@, o.reference, o.ref_at->0, angle, rj, o.hide_ref);
    lemma_property("Value"@, o.value, o.value_at->0, angle, vj, o.hide_value);
    let ps = elements(symbol_head(o, id), "property"@);
    assert(ps[0] == v_property("Reference"@, o.reference, o.ref_at->0, angle, rj, o.hide_ref));
    assert(ps[1] == v_property("Value"@, o.value, o.value_at->0, angle, vj, o.hide_value));
}

/// A placed symbol says what it was given: its library symbol, its place and how it is turned and
/// mirrored, its reference and its value, and whether it is fitted.
pub open spec fn is_symbol_node(node: SexprView, o: PlaceView) -> bool {
    &&& is_tagged(node, "symbol"@)
    &&& says_under(node, "lib_id"@, o.lib_id)
    &&& stands_turned(node, o.at, o.rotation as int)
    &&& mirrored(node, o.mirror)
    &&& chooses(
        node,
        "dnp"@,
        if o.dnp {
            "yes"@
        } else {
            "no"@
        },
    )
    &&& o.ref_at is Some && o.value_at is Some ==> labels_itself(
        node,
        o.reference,
        o.ref_at->0,
        o.value,
        o.value_at->0,
    )
}

proof fn lemma_symbol_inside(
    w: WriterView,
    o: PlaceView,
    id: Seq<char>,
    pins: Seq<SexprView>,
    tag: Seq<char>,
)
    requires
        all_tagged(pins, "pin"@),
        tag == "lib_id"@ || tag == "at"@ || tag == "mirror"@ || tag == "dnp"@ || tag == "property"@,
    ensures
        inside(w.symbol_node(o, id, pins), tag) == elements(symbol_head(o, id), tag),
{
    broadcast use group_reading;

    lemma_tags();
    lemma_elements_all(pins, "pin"@, tag);
    assert(inside(w.symbol_node(o, id, pins), tag) =~= elements(symbol_head(o, id), tag));
}

pub proof fn lemma_symbol_says(w: WriterView, o: PlaceView, id: Seq<char>, pins: Seq<SexprView>)
    requires
        all_tagged(pins, "pin"@),
    ensures
        is_symbol_node(w.symbol_node(o, id, pins), o),
{
    let node = w.symbol_node(o, id, pins);
    lemma_at(o.at, o.rotation as int);
    lemma_uses_tag(o.dnp, "dnp"@);
    lemma_symbol_inside(w, o, id, pins, "lib_id"@);
    lemma_symbol_inside(w, o, id, pins, "at"@);
    lemma_symbol_inside(w, o, id, pins, "mirror"@);
    lemma_symbol_inside(w, o, id, pins, "dnp"@);
    lemma_symbol_inside(w, o, id, pins, "property"@);
    lemma_head_tag(o, id, "lib_id"@);
    lemma_head_tag(o, id, "at"@);
    lemma_head_tag(o, id, "mirror"@);
    lemma_head_tag(o, id, "dnp"@);
    if o.ref_at is Some && o.value_at is Some {
        lemma_head_properties(o, id);
    }
    lemma_pair("lib_id"@, SexprView::Str(o.lib_id));
    lemma_pair("mirror"@, SexprView::Symbol("x"@));
    lemma_pair("mirror"@, SexprView::Symbol("y"@));
    lemma_pair("dnp"@, SexprView::Symbol("yes"@));
    lemma_pair("dnp"@, SexprView::Symbol("no"@));
    lemma_node_tag(
        "symbol"@,
        symbol_head(o, id) + pins + seq![w.symbol_instances(o.reference, o.unit as int)],
        "symbol"@,
    );
}

// ---------------------------------------------------------------- further properties

/// The element has a property of the name with the value, where there is one.
pub open spec fn carries(node: SexprView, name: Seq<char>, value: Option<Seq<char>>) -> bool {
    match value {
        Some(v) => exists|k: int| #[trigger] has_property(node, k, name, v),
        None => true,
    }
}

/// Property number `k` of the element has the name and the value.
pub open spec fn has_property(node: SexprView, k: int, name: Seq<char>, value: Seq<char>) -> bool {
    let ps = inside(node, "property"@);
    0 <= k < ps.len() && says(ps[k], name) && items_of(ps[k]).len() > 2 && items_of(ps[k])[2]
        == SexprView::Str(value)
}

proof fn lemma_all_properties(o: PlaceView, id: Seq<char>) -> (two: Seq<SexprView>)
    ensures
        elements(symbol_head(o, id), "property"@) == two + v_field(
            "Footprint"@,
            o.footprint,
            o.at,
        ) + v_field("Datasheet"@, o.datasheet, o.at) + v_field("Description"@, o.description, o.at)
            + v_field("MPN"@, o.mpn, o.at),
{
    broadcast use group_reading;

    reveal(symbol_head);
    lemma_tags();
    lemma_uses_tag(o.dnp, "property"@);
    lemma_mirror_tag(o.mirror, "property"@);
    let fields = v_field("Footprint"@, o.footprint, o.at) + v_field("Datasheet"@, o.datasheet, o.at)
        + v_field("Description"@, o.description, o.at) + v_field("MPN"@, o.mpn, o.at);
    assert(elements(v_field("Footprint"@, o.footprint, o.at), "property"@) =~= v_field(
        "Footprint"@,
        o.footprint,
        o.at,
    ));
    assert(elements(v_field("Datasheet"@, o.datasheet, o.at), "property"@) =~= v_field(
        "Datasheet"@,
        o.datasheet,
        o.at,
    ));
    assert(elements(v_field("Description"@, o.description, o.at), "property"@) =~= v_field(
        "Description"@,
        o.description,
        o.at,
    ));
    assert(elements(v_field("MPN"@, o.mpn, o.at), "property"@) =~= v_field("MPN"@, o.mpn, o.at));
    let all = elements(symbol_head(o, id), "property"@);
    let two = all.take(all.len() - fields.len());
    assert(all =~= two + v_field("Footprint"@, o.footprint, o.at) + v_field(
        "Datasheet"@,
        o.datasheet,
        o.at,
    ) + v_field("Description"@, o.description, o.at) + v_field("MPN"@, o.mpn, o.at));
    two
}

proof fn lemma_field_found(node: SexprView, name: Seq<char>, value: Option<Seq<char>>, at: Point, a: Seq<SexprView>, b: Seq<SexprView>)
    requires
        inside(node, "property"@) == a + v_field(name, value, at) + b,
    ensures
        carries(node, name, value),
{
    match value {
        Some(v) => {
            let ps = inside(node, "property"@);
            let k = a.len() as int;
            lemma_property(name, v, at, 0, Seq::empty(), true);
            assert(ps[k] == v_property(name, v, at, 0, Seq::empty(), true));
            assert(has_property(node, k, name, v));
        },
        None => {},
    }
}

/// A placed symbol carries the fields that it was given.
pub proof fn lemma_symbol_carries(w: WriterView, o: PlaceView, id: Seq<char>, pins: Seq<SexprView>)
    requires
        all_tagged(pins, "pin"@),
    ensures
        carries(w.symbol_node(o, id, pins), "Footprint"@, o.footprint),
        carries(w.symbol_node(o, id, pins), "Datasheet"@, o.datasheet),
        carries(w.symbol_node(o, id, pins), "Description"@, o.description),
        carries(w.symbol_node(o, id, pins), "MPN"@, o.mpn),
{
    let node = w.symbol_node(o, id, pins);
    lemma_symbol_inside(w, o, id, pins, "property"@);
    let two = lemma_all_properties(o, id);
    let ps = inside(node, "property"@);
    let f = v_field("Footprint"@, o.footprint, o.at);
    let d = v_field("Datasheet"@, o.datasheet, o.at);
    let e = v_field("Description"@, o.description, o.at);
    let m = v_field("MPN"@, o.mpn, o.at);
    assert(ps =~= two + f + (d + e + m));
    assert(ps =~= (two + f) + d + (e + m));
    assert(ps =~= (two + f + d) + e + m);
    assert(ps =~= (two + f + d + e) + m + Seq::empty());
    lemma_field_found(node, "Footprint"@, o.footprint, o.at, two, d + e + m);
    lemma_field_found(node, "Datasheet"@, o.datasheet, o.at, two + f, e + m);
    lemma_field_found(node, "Description"@, o.description, o.at, two + f + d, m);
    lemma_field_found(node, "MPN"@, o.mpn, o.at, two + f + d + e, Seq::empty());
}

// ---------------------------------------------------------------- the tie to the project

/// The element is tied to the project under the path and the reference.
pub open spec fn tied(
    node: SexprView,
    project: Seq<char>,
    path: Seq<char>,
    reference: Seq<char>,
) -> bool {
    inside(node, "instances"@) == seq![
        SexprView::List(
            seq![
                SexprView::Symbol("instances"@),
                SexprView::List(
                    seq![
                        SexprView::Symbol("project"@),
                        SexprView::Str(project),
                        SexprView::List(
                            seq![
                                SexprView::Symbol("path"@),
                                SexprView::Str(path),
                                SexprView::List(
                                    seq![
                                        SexprView::Symbol("reference"@),
                                        SexprView::Str(reference),
                                    ],
                                ),
                                SexprView::List(
                                    seq![SexprView::Symbol("unit"@), SexprView::Int(1)],
                                ),
                            ],
                        ),
                    ],
                ),
            ],
        ),
    ]
}

proof fn lemma_tie(w: WriterView, reference: Seq<char>)
    ensures
        w.symbol_instances(reference, 1) == SexprView::List(
            seq![
                SexprView::Symbol("instances"@),
                SexprView::List(
                    seq![
                        SexprView::Symbol("project"@),
                        SexprView::Str(w.project),
                        SexprView::List(
                            seq![
                                SexprView::Symbol("path"@),
                                SexprView::Str(w.path_prefix()),
                                SexprView::List(
                                    seq![
                                        SexprView::Symbol("reference"@),
                                        SexprView::Str(reference),
                                    ],
                                ),
                                SexprView::List(
                                    seq![SexprView::Symbol("unit"@), SexprView::Int(1)],
                                ),
                            ],
                        ),
                    ],
                ),
            ],
        ),
{
    lemma_pair("reference"@, SexprView::Str(reference));
    lemma_pair("unit"@, SexprView::Int(1));
    let kids = seq![v_node("reference"@, seq![v_text(reference)]), v_node("unit"@, seq![v_int(1)])];
    let path = v_node("path"@, seq![v_text(w.path_prefix())] + kids);
    assert(path->List_0 =~= seq![
        SexprView::Symbol("path"@),
        SexprView::Str(w.path_prefix()),
        SexprView::List(seq![SexprView::Symbol("reference"@), SexprView::Str(reference)]),
        SexprView::List(seq![SexprView::Symbol("unit"@), SexprView::Int(1)]),
    ]);
    let project = v_node("project"@, seq![v_text(w.project), path]);
    assert(project->List_0 =~= seq![SexprView::Symbol("project"@), SexprView::Str(w.project), path]);
    lemma_pair("instances"@, project);
}

proof fn lemma_head_untied(o: PlaceView, id: Seq<char>)
    ensures
        elements(symbol_head(o, id), "instances"@) == Seq::<SexprView>::empty(),
{
    broadcast use group_reading;

    reveal(symbol_head);
    lemma_tags();
    lemma_uses(o.dnp);
    lemma_mirror_tag(o.mirror, "instances"@);
    lemma_fields_tag("Footprint"@, o.footprint, o.at, "instances"@);
    lemma_fields_tag("Datasheet"@, o.datasheet, o.at, "instances"@);
    lemma_fields_tag("Description"@, o.description, o.at, "instances"@);
    lemma_fields_tag("MPN"@, o.mpn, o.at, "instances"@);
    assert(elements(v_uses(o.dnp), "instances"@) =~= Seq::empty());
    assert(elements(symbol_head(o, id), "instances"@) =~= Seq::empty());
}

pub proof fn lemma_symbol_tied(w: WriterView, o: PlaceView, id: Seq<char>, pins: Seq<SexprView>)
    requires
        all_tagged(pins, "pin"@),
        o.unit == 1,
    ensures
        tied(w.symbol_node(o, id, pins), w.project, w.path_prefix(), o.reference),
{
    broadcast use group_reading;

    lemma_tags();
    lemma_elements_all(pins, "pin"@, "instances"@);
    lemma_head_untied(o, id);
    lemma_tie(w, o.reference);
    assert(inside(w.symbol_node(o, id, pins), "instances"@) =~= seq![
        w.symbol_instances(o.reference, 1),
    ]);
}

// ---------------------------------------------------------------- generated symbols

/// The element is a generated symbol at the place, turned by the angle, with the value.
pub open spec fn is_mark(node: SexprView, lib_id: Seq<char>, at: Point, angle: int, value: Seq<char>) -> bool {
    &&& is_tagged(node, "symbol"@)
    &&& says_under(node, "lib_id"@, lib_id)
    &&& stands_turned(node, at, angle)
    &&& inside(node, "mirror"@).len() == 0
    &&& has_property(node, 1, "Value"@, value)
}

pub proof fn lemma_mark_says(
    w: WriterView,
    lib_id: Seq<char>,
    at: Point,
    rotation: int,
    reference: Seq<char>,
    ref_at: Point,
    value: Seq<char>,
    value_at: Point,
    hide: bool,
)
    ensures
        is_mark(
            w.mark_node(lib_id, at, rotation, reference, ref_at, value, value_at, hide),
            lib_id,
            at,
            rotation,
            value,
        ),
        tied(
            w.mark_node(lib_id, at, rotation, reference, ref_at, value, value_at, hide),
            w.project,
            w.path_prefix(),
            reference,
        ),
        has_property(
            w.mark_node(lib_id, at, rotation, reference, ref_at, value, value_at, hide),
            0,
            "Reference"@,
            reference,
        ),
{
    broadcast use group_reading;

    lemma_tags();
    lemma_at(at, rotation);
    lemma_uses_tag(false, "lib_id"@);
    lemma_uses_tag(false, "at"@);
    lemma_uses_tag(false, "mirror"@);
    lemma_uses_tag(false, "property"@);
    lemma_uses(false);
    let node = w.mark_node(lib_id, at, rotation, reference, ref_at, value, value_at, hide);
    lemma_pair("lib_id"@, SexprView::Str(lib_id));
    lemma_tie(w, reference);
    lemma_property("Reference"@, reference, ref_at, 0, Seq::empty(), true);
    lemma_property("Value"@, value, value_at, 0, Seq::empty(), hide);
    assert(inside(node, "lib_id"@) =~= seq![v_node("lib_id"@, seq![v_text(lib_id)])]);
    assert(inside(node, "at"@) =~= seq![v_at_turned(at, rotation)]);
    assert(inside(node, "mirror"@) =~= Seq::empty());
    assert(inside(node, "instances"@) =~= seq![w.symbol_instances(reference, 1)]);
    assert(inside(node, "property"@) =~= seq![
        v_property("Reference"@, reference, ref_at, 0, Seq::empty(), true),
        v_property("Value"@, value, value_at, 0, Seq::empty(), hide),
    ]);
}

} // verus!
