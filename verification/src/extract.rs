//! Components of the design: symbols, values and positions read from the evaluated instances.

use vstd::prelude::*;
use crate::anchors::below;
use crate::geometry::{
    full_turn, grown, inflate, is_symbol, parse_lib_symbol, renamed, renamed_block, spec_inflate, symbol_error,
    BBox, PinGeom, SymbolError, SymbolGeom,
};
use crate::model::{Comp, ManualPosition, Role};
use crate::nodes::copy_tree;
use crate::order::{
    lemma_sorted_items, natural_compare, natural_order, sort_by, sorted_by,
};
use crate::pins::{is_seen, seen};
use crate::roles::{side_named};
use crate::model::Side;
use crate::schematic::{
    copy_path, dotted, dotted_path, Instance, InstanceKind, Position, Schematic,
};
use crate::sexpr::{trees, Sexpr, SexprView};
use crate::symbols::{
    box_name, box_pins, box_text, footprint_name, id_given, kicad_footprint_name, known_after,
    opt_text, synthesize_box_symbol, v_box_symbol, BoxSymbol, LibIdAllocator,
};
use crate::text::{boxed, chars_of, has, holds, is_text, lower, to_lower, Text};
use crate::units::{sat, to_iu, Point};
use crate::warning::Warning;

verus! {

/// Why no schematic can be generated.
#[derive(Debug)]
pub enum BuildError {
    /// The component has no reference designator.
    NoDesignator { path: String },
    /// The text of the component's symbol is no tree.
    UnreadableSymbol { path: String },
    /// The tree of the component's symbol is no symbol.
    InvalidSymbol { path: String, why: SymbolError },
    /// The component has neither a symbol nor pads.
    NoPads { refdes: String },
}

// ---------------------------------------------------------------- order of the components

/// Those of the first `n` instances that are components.
pub open spec fn components(sch: Schematic, n: int) -> Seq<usize>
    decreases n,
{
    if n <= 0 || n > sch.instances@.len() {
        Seq::empty()
    } else if sch.instances@[n - 1].kind == InstanceKind::Component {
        components(sch, n - 1).push((n - 1) as usize)
    } else {
        components(sch, n - 1)
    }
}

/// Instance `a` comes behind instance `c` in the natural order of their paths.
pub open spec fn path_behind(sch: Schematic) -> spec_fn(usize, usize) -> bool {
    |a: usize, c: usize|
        natural_order(
            dotted(sch.instances@[a as int].path@),
            dotted(sch.instances@[c as int].path@),
        ) > 0
}

/// The components in the natural order of their paths.
pub open spec fn comp_order(sch: Schematic) -> Seq<usize> {
    sorted_by(components(sch, sch.instances@.len() as int), path_behind(sch))
}

pub fn order_components(sch: &Schematic) -> (r: Vec<usize>)
    ensures
        r@ == comp_order(*sch),
        below(r@, sch.instances@.len() as int),
{
    let mut all: Vec<usize> = Vec::new();
    let mut keys: Vec<String> = Vec::new();
    let mut n: usize = 0;
    while n < sch.instances.len()
        invariant
            n <= sch.instances.len(),
            all@ == components(*sch, n as int),
            below(all@, sch.instances@.len() as int),
            keys@.len() == n,
            forall|i: int| 0 <= i < n ==> (#[trigger] keys@[i])@ == dotted(sch.instances@[i].path@),
        decreases sch.instances.len() - n,
    {
        if sch.instances[n].kind == InstanceKind::Component {
            all.push(n);
        }
        keys.push(dotted_path(&sch.instances[n].path));
        n = n + 1;
    }
    let after = |a: usize, c: usize| -> (r: bool)
        requires
            a < keys@.len(),
            c < keys@.len(),
        ensures
            r == (natural_order(keys@[a as int]@, keys@[c as int]@) > 0),
        { natural_compare(keys[a].as_str(), keys[c].as_str()) > 0 };
    let ghost by_key = |a: usize, c: usize| natural_order(keys@[a as int]@, keys@[c as int]@) > 0;
    let r: Vec<usize> = sort_by(&all, after, Ghost(by_key));
    proof {
        let top = sch.instances@.len() as int;
        lemma_sorted_items(all@, by_key, |i: usize| i < top);
        assert forall|i: int| 0 <= i < r@.len() implies #[trigger] r@[i] < top by {
            assert((|i: usize| i < top)(r@[i]));
        }
        crate::columns::lemma_sort_agrees(all@, by_key, path_behind(*sch), top);
    }
    r
}

// ---------------------------------------------------------------- one component

/// The pins that are drawn, by their distinct positions, among the first `n`.
pub open spec fn drawn_places(pins: Seq<PinGeom>, n: int) -> Seq<Point>
    decreases n,
{
    if n <= 0 || n > pins.len() {
        Seq::empty()
    } else {
        let before = drawn_places(pins, n - 1);
        let at = Point { x: pins[n - 1].x, y: pins[n - 1].y };
        if pins[n - 1].hidden || seen(before, at) {
            before
        } else {
            before.push(at)
        }
    }
}

/// The value that is shown: the value, the part number, the type, or a question mark.
pub open spec fn shown_value(inst: Instance) -> Seq<char> {
    match inst.value {
        Some(v) => v@,
        None => match inst.mpn {
            Some(v) => v@,
            None => match inst.component_type {
                Some(v) => v@,
                None => "?"@,
            },
        },
    }
}

/// A tie between two nets, by its type or by its symbol.
pub open spec fn net_tie(inst: Instance, lib_id: Seq<char>) -> bool {
    (inst.component_type matches Some(t) && lower(t@) == "net_tie"@) || holds(
        lower(lib_id),
        "nettie"@,
    )
}

pub open spec fn opt_chars(s: Option<String>) -> Option<Seq<char>> {
    match s {
        Some(s) => Some(s@),
        None => None,
    }
}

pub open spec fn opt_text_chars(s: Option<Text>) -> Option<Seq<char>> {
    match s {
        Some(s) => Some(s@),
        None => None,
    }
}

/// What tells the symbol of a component from others.
pub open spec fn content_of(sch: Schematic, inst: Instance) -> Seq<char> {
    match inst.symbol {
        Some(s) => s.text@,
        None => {
            let pins = box_pins(sch, inst);
            box_text(box_name(inst.reference_designator->0@), pins, pins.len() as int).push(')')
        },
    }
}

/// The file that the symbol of a component comes from.
pub open spec fn source_of(inst: Instance) -> Option<Seq<char>> {
    match inst.symbol {
        Some(_) => opt_chars(inst.symbol_path),
        None => None,
    }
}

/// The block of the symbol of a component.
pub open spec fn block_of(sch: Schematic, inst: Instance) -> SexprView {
    match inst.symbol {
        Some(s) => s.tree->0@,
        None => v_box_symbol(
            box_name(inst.reference_designator->0@),
            box_pins(sch, inst),
        ),
    }
}

/// What is wrong with a component, if anything.
pub open spec fn is_fault(e: BuildError, sch: Schematic, inst: Instance) -> bool {
    match inst.reference_designator {
        None => e matches BuildError::NoDesignator { path } && path@ == dotted(inst.path@),
        Some(refdes) => match inst.symbol {
            Some(s) => match s.tree {
                None => e matches BuildError::UnreadableSymbol { path } && path@ == dotted(
                    inst.path@,
                ),
                Some(t) => e matches BuildError::InvalidSymbol { path, why } && path@ == dotted(
                    inst.path@,
                ) && symbol_error(t@) == Some(why),
            },
            None => e matches BuildError::NoPads { refdes: r } && r == refdes,
        },
    }
}

/// The component has a designator, and a symbol or pads to make one from.
pub open spec fn sound(sch: Schematic, inst: Instance) -> bool {
    &&& inst.reference_designator is Some
    &&& match inst.symbol {
        Some(s) => s.tree is Some && symbol_error(s.tree->0@) is None,
        None => box_pins(sch, inst).len() > 0,
    }
}

/// The component as read from its instance, under the library id that its symbol got; its role
/// and its position are still open.
pub open spec fn is_comp(c: Comp, sch: Schematic, inst: Instance, id: Seq<char>) -> bool {
    &&& c.path@ == inst.path@
    &&& c.path_key@ == dotted(inst.path@)
    &&& inst.reference_designator == Some(c.refdes)
    &&& c.value@ == shown_value(inst)
    &&& opt_text_chars(c.footprint) == match inst.footprint {
        Some(f) => Some(footprint_name(f@)),
        None => None,
    }
    &&& c.mpn == inst.mpn
    &&& c.datasheet == inst.datasheet
    &&& c.description == inst.description
    &&& c.dnp == inst.dnp
    &&& is_symbol(c.geom, renamed(block_of(sch, inst), Some(id)))
    &&& c.anchor_attr == inst.anchor
    &&& c.side_attr == match inst.side {
        Some(s) => side_named(lower(s@)),
        None => None,
    }
    &&& c.edge_attr == inst.edge
    &&& c.visible_pins == drawn_places(c.geom.pins@, c.geom.pins@.len() as int).len()
    &&& c.synthesized == inst.symbol is None
    &&& c.is_net_tie == net_tie(inst, c.geom.lib_id@)
}

pub fn copy_text(s: &Option<String>) -> (r: Option<String>)
    ensures
        r == *s,
{
    match s {
        Some(t) => Some(t.clone()),
        None => None,
    }
}

fn count_drawn(pins: &[PinGeom]) -> (r: usize)
    ensures
        r == drawn_places(pins@, pins@.len() as int).len(),
{
    let mut met: Vec<Point> = Vec::new();
    let mut n: usize = 0;
    while n < pins.len()
        invariant
            n <= pins.len(),
            met@ == drawn_places(pins@, n as int),
        decreases pins.len() - n,
    {
        let at: Point = Point { x: pins[n].x, y: pins[n].y };
        if !pins[n].hidden && !is_seen(&met, at) {
            met.push(at);
        }
        n = n + 1;
    }
    met.len()
}

fn value_shown(inst: &Instance) -> (r: Text)
    ensures
        r@ == shown_value(*inst),
{
    match &inst.value {
        Some(v) => Text::of(v.as_str()),
        None => match &inst.mpn {
            Some(v) => Text::of(v.as_str()),
            None => match &inst.component_type {
                Some(v) => Text::of(v.as_str()),
                None => Text::of("?"),
            },
        },
    }
}

fn is_net_tie(inst: &Instance, lib_id: &str) -> (r: bool)
    ensures
        r == net_tie(*inst, lib_id@),
{
    let by_type: bool = match &inst.component_type {
        Some(t) => is_text(&to_lower(t.as_str()), "net_tie"),
        None => false,
    };
    by_type || has(&to_lower(lib_id), &chars_of("nettie"))
}

/// Read one component.
pub fn read_comp(sch: &Schematic, inst: &Instance, ids: &mut LibIdAllocator) -> (r: Result<
    Comp,
    BuildError,
>)
    ensures
        match r {
            Ok(c) => {
                &&& sound(*sch, *inst)
                &&& is_comp(
                    c,
                    *sch,
                    *inst,
                    id_given(old(ids)@, content_of(*sch, *inst), source_of(*inst)),
                )
                &&& c.role == Role::Other
                &&& c.manual is None
                &&& final(ids)@ == known_after(
                    old(ids)@,
                    content_of(*sch, *inst),
                    source_of(*inst),
                )
            },
            Err(e) => !sound(*sch, *inst) && is_fault(e, *sch, *inst),
        },
{
    let refdes: String = match &inst.reference_designator {
        Some(s) => s.clone(),
        None => return Err(BuildError::NoDesignator { path: dotted_path(&inst.path) }),
    };
    let (text, tree): (String, Sexpr) = match &inst.symbol {
        Some(s) => match &s.tree {
            Some(t) => (s.text.clone(), copy_tree(t)),
            None => return Err(BuildError::UnreadableSymbol { path: dotted_path(&inst.path) }),
        },
        None => match synthesize_box_symbol(sch, inst, refdes.as_str()) {
            Some(b) => (b.text, b.tree),
            None => return Err(BuildError::NoPads { refdes }),
        },
    };
    let ghost block = tree@;
    let synthesized: bool = inst.symbol.is_none();
    let ghost known = ids@;
    let source: Option<&str> = if synthesized {
        None
    } else {
        match &inst.symbol_path {
            Some(p) => Some(p.as_str()),
            None => None,
        }
    };
    let id: String = ids.lib_id_for(&text, source);
    proof {
        assert(block == block_of(*sch, *inst));
        assert(text@ == content_of(*sch, *inst));
        assert(opt_text(source) == source_of(*inst));
        if synthesized {
            lemma_box_is_symbol(box_name(refdes@), box_pins(*sch, *inst));
        }
    }
    let geom: SymbolGeom = match parse_lib_symbol(tree, Some(id.as_str())) {
        Ok(s) => s.geom,
        Err(why) => return Err(BuildError::InvalidSymbol { path: dotted_path(&inst.path), why }),
    };
    let tie: bool = is_net_tie(inst, id.as_str());
    let visible_pins: usize = count_drawn(&geom.pins);
    Ok(
        Comp {
            path: boxed(copy_path(&inst.path)),
            path_key: Text::of(dotted_path(&inst.path).as_str()),
            refdes,
            value: value_shown(inst),
            footprint: match &inst.footprint {
                Some(f) => Some(Text::of(kicad_footprint_name(f.as_str()).as_str())),
                None => None,
            },
            mpn: copy_text(&inst.mpn),
            datasheet: copy_text(&inst.datasheet),
            description: copy_text(&inst.description),
            dnp: inst.dnp,
            geom,
            role: Role::Other,
            anchor_attr: copy_text(&inst.anchor),
            side_attr: match &inst.side {
                Some(s) => Side::from_attr(s.as_str()),
                None => None,
            },
            edge_attr: copy_text(&inst.edge),
            manual: None,
            visible_pins,
            synthesized,
            is_net_tie: tie,
        },
    )
}

/// The block of the symbol of a component, before it is renamed.
fn symbol_block(sch: &Schematic, inst: &Instance) -> (r: Option<Sexpr>)
    ensures
        sound(*sch, *inst) ==> r is Some && r->0@ == block_of(*sch, *inst),
{
    match &inst.symbol {
        Some(s) => match &s.tree {
            Some(t) => Some(copy_tree(t)),
            None => None,
        },
        None => match &inst.reference_designator {
            Some(refdes) => match synthesize_box_symbol(sch, inst, refdes.as_str()) {
                Some(b) => Some(b.tree),
                None => None,
            },
            None => None,
        },
    }
}

/// A box symbol is a symbol.
pub proof fn lemma_box_is_symbol(name: Seq<char>, pins: Seq<crate::symbols::BoxPin>)
    ensures
        symbol_error(v_box_symbol(name, pins)) is None,
{
    let items = v_box_symbol(name, pins)->List_0;
    assert(items[0] == crate::nodes::v_word("symbol"@));
    assert(items[1] == crate::nodes::v_text(name));
}

// ---------------------------------------------------------------- all components

/// What the allocator knows after the first `n` components.
pub open spec fn known_upto(sch: Schematic, order: Seq<usize>, n: int) -> Seq<(Seq<char>, Seq<char>)>
    decreases n,
{
    if n <= 0 || n > order.len() {
        Seq::empty()
    } else {
        let inst = sch.instances@[order[n - 1] as int];
        known_after(known_upto(sch, order, n - 1), content_of(sch, inst), source_of(inst))
    }
}

/// The library id of component number `i`.
pub open spec fn lib_id_of(sch: Schematic, order: Seq<usize>, i: int) -> Seq<char> {
    let inst = sch.instances@[order[i] as int];
    id_given(known_upto(sch, order, i), content_of(sch, inst), source_of(inst))
}

pub open spec fn are_comps(comps: Seq<Comp>, sch: Schematic, order: Seq<usize>, n: int) -> bool {
    comps.len() == n && forall|i: int|
        0 <= i < n ==> is_comp(
            #[trigger] comps[i],
            sch,
            sch.instances@[order[i] as int],
            lib_id_of(sch, order, i),
        )
}

/// The first component, from `i` on, that no schematic can be made of.
pub open spec fn first_unsound(sch: Schematic, order: Seq<usize>, i: int) -> Option<int>
    decreases order.len() - i,
{
    if i < 0 || i >= order.len() {
        None
    } else if !sound(sch, sch.instances@[order[i] as int]) {
        Some(i)
    } else {
        first_unsound(sch, order, i + 1)
    }
}

/// The remarks on those of the first `n` components that got a box.
pub open spec fn boxes_said(comps: Seq<Comp>, n: int) -> Seq<Warning>
    decreases n,
{
    if n <= 0 || n > comps.len() {
        Seq::empty()
    } else if comps[n - 1].synthesized {
        boxes_said(comps, n - 1).push(
            Warning::BoxSymbol { refdes: comps[n - 1].refdes, path: comps[n - 1].path_key },
        )
    } else {
        boxes_said(comps, n - 1)
    }
}

/// No component has a role or a position yet.
pub open spec fn unclassified(comps: Seq<Comp>) -> bool {
    forall|i: int| 0 <= i < comps.len() ==> (#[trigger] comps[i]).role == Role::Other
        && comps[i].manual is None
}

/// Read all components, in the natural order of their paths.
pub fn read_comps(sch: &Schematic, order: &Vec<usize>) -> (r: Result<Vec<Comp>, BuildError>)
    requires
        below(order@, sch.instances@.len() as int),
    ensures
        match r {
            Ok(comps) => {
                &&& first_unsound(*sch, order@, 0) is None
                &&& are_comps(comps@, *sch, order@, order@.len() as int)
                &&& unclassified(comps@)
            },
            Err(e) => match first_unsound(*sch, order@, 0) {
                Some(i) => is_fault(e, *sch, sch.instances@[order@[i] as int]),
                None => false,
            },
        },
{
    let mut ids: LibIdAllocator = LibIdAllocator::new();
    let mut comps: Vec<Comp> = Vec::new();
    let mut n: usize = 0;
    while n < order.len()
        invariant
            n <= order.len(),
            below(order@, sch.instances@.len() as int),
            first_unsound(*sch, order@, 0) == first_unsound(*sch, order@, n as int),
            ids@ == known_upto(*sch, order@, n as int),
            are_comps(comps@, *sch, order@, n as int),
            unclassified(comps@),
        decreases order.len() - n,
    {
        let ghost before = comps@;
        match read_comp(sch, &sch.instances[order[n]], &mut ids) {
            Ok(c) => {
                comps.push(c);
                proof {
                    assert forall|i: int| 0 <= i < n + 1 implies is_comp(
                        #[trigger] comps@[i],
                        *sch,
                        sch.instances@[order@[i] as int],
                        lib_id_of(*sch, order@, i),
                    ) by {
                        if i < n {
                            assert(comps@[i] == before[i]);
                        }
                    }
                    assert forall|i: int| 0 <= i < comps@.len() implies (#[trigger] comps@[i]).role
                        == Role::Other && comps@[i].manual is None by {
                        if i < n {
                            assert(comps@[i] == before[i]);
                        }
                    }
                }
            },
            Err(e) => return Err(e),
        }
        n = n + 1;
    }
    Ok(comps)
}

/// The symbol blocks of all components, each under its library id.
pub open spec fn blocks_of(sch: Schematic) -> Seq<SexprView> {
    let order = comp_order(sch);
    Seq::new(
        order.len(),
        |i: int|
            renamed(
                block_of(sch, sch.instances@[order[i] as int]),
                Some(lib_id_of(sch, order, i)),
            ),
    )
}

/// Nothing is wrong with component `i` if nothing is wrong with any from `from` on.
pub proof fn lemma_sound(sch: Schematic, order: Seq<usize>, from: int, i: int)
    requires
        0 <= from <= i < order.len(),
        first_unsound(sch, order, from) is None,
    ensures
        sound(sch, sch.instances@[order[i] as int]),
    decreases i - from,
{
    if from < i {
        lemma_sound(sch, order, from + 1, i);
    }
}

/// Copy the symbol blocks of all components.
pub fn list_blocks(sch: &Schematic, comps: &[Comp]) -> (r: Vec<Sexpr>)
    requires
        first_unsound(*sch, comp_order(*sch), 0) is None,
        are_comps(comps@, *sch, comp_order(*sch), comp_order(*sch).len() as int),
    ensures
        trees(r@) == blocks_of(*sch),
{
    let order: Vec<usize> = order_components(sch);
    let ghost want = blocks_of(*sch);
    let mut out: Vec<Sexpr> = Vec::new();
    let mut n: usize = 0;
    while n < order.len()
        invariant
            n <= order.len(),
            order@ == comp_order(*sch),
            below(order@, sch.instances@.len() as int),
            first_unsound(*sch, order@, 0) is None,
            are_comps(comps@, *sch, order@, order@.len() as int),
            want == blocks_of(*sch),
            trees(out@) =~= want.take(n as int),
        decreases order.len() - n,
    {
        let inst: &Instance = &sch.instances[order[n]];
        proof {
            lemma_sound(*sch, order@, 0, n as int);
            if inst.symbol is None {
                lemma_box_is_symbol(
                    box_name(inst.reference_designator->0@),
                    box_pins(*sch, *inst),
                );
            }
        }
        let block: Sexpr = symbol_block(sch, inst).unwrap();
        let ghost bare = block@;
        proof {
            assert(is_comp(comps@[n as int], *sch, *inst, lib_id_of(*sch, order@, n as int)));
            assert(comps@[n as int].geom.lib_id@ == lib_id_of(*sch, order@, n as int));
        }
        let named: Sexpr = renamed_block(block, comps[n].geom.lib_id.show().as_str()).unwrap();
        let ghost before = trees(out@);
        out.push(named);
        n = n + 1;
        proof {
            assert(trees(out@) =~= before.push(want[n - 1]));
        }
    }
    proof {
        assert(trees(out@) =~= want);
    }
    out
}

// ---------------------------------------------------------------- positions set by hand

/// Where a pin meets its body. Pins point along the axes.
pub open spec fn pin_tip(pin: PinGeom) -> Point {
    let a = pin.angle as int % 360;
    if a == 0 {
        Point { x: sat(pin.x + pin.length), y: pin.y }
    } else if a == 90 {
        Point { x: pin.x, y: sat(pin.y + pin.length) }
    } else if a == 180 {
        Point { x: sat(pin.x - pin.length), y: pin.y }
    } else if a == 270 {
        Point { x: pin.x, y: sat(pin.y - pin.length) }
    } else {
        Point { x: pin.x, y: pin.y }
    }
}

/// The body and both ends of the first `n` pins.
pub open spec fn seen_box(geom: SymbolGeom, n: int) -> BBox
    decreases n,
{
    if n <= 0 || n > geom.pins@.len() {
        geom.body_bbox
    } else {
        let p = geom.pins@[n - 1];
        let tip = pin_tip(p);
        grown(grown(seen_box(geom, n - 1), p.x, p.y), tip.x, tip.y)
    }
}

/// What an editor takes as the bounds of a symbol.
pub open spec fn bounds(geom: SymbolGeom) -> BBox {
    spec_inflate(seen_box(geom, geom.pins@.len() as int), 1000)
}

/// What an editor takes as the bounds of a symbol: body and pins, with a little air.
pub fn visual_bounds(geom: &SymbolGeom) -> (r: BBox)
    ensures
        r == bounds(*geom),
{
    let mut b: BBox = geom.body_bbox;
    let mut n: usize = 0;
    while n < geom.pins.len()
        invariant
            n <= geom.pins.len(),
            b == seen_box(*geom, n as int),
        decreases geom.pins.len() - n,
    {
        let p: &PinGeom = &geom.pins[n];
        let a: i32 = full_turn(p.angle as i64);
        let x: i64 = p.x as i64;
        let y: i64 = p.y as i64;
        let len: i64 = p.length as i64;
        let tip: Point = match a {
            0 => Point { x: to_iu(x + len), y: p.y },
            90 => Point { x: p.x, y: to_iu(y + len) },
            180 => Point { x: to_iu(x - len), y: p.y },
            270 => Point { x: p.x, y: to_iu(y - len) },
            _ => Point { x: p.x, y: p.y },
        };
        b.extend(p.x, p.y);
        b.extend(tip.x, tip.y);
        n = n + 1;
    }
    inflate(&b, 1000)
}

/// The nearest quarter turn against the clock of a turn with the clock.
pub open spec fn quarter_turn(clockwise: int) -> int {
    (((360 - clockwise % 360) % 360 + 45) / 90 * 90) % 360
}

/// A position set by hand, as the origin of the symbol.
pub open spec fn converted(pos: Position, geom: SymbolGeom) -> ManualPosition {
    let vb = bounds(geom);
    ManualPosition {
        at: Point { x: sat(pos.x - vb.x1), y: sat(pos.y + vb.y2) },
        rotation: quarter_turn(pos.rotation as int) as i32,
        mirror: pos.mirror,
    }
}

/// The origin and the rotation that a position set by hand stands for: it gives the upper left
/// corner of the symbol's bounds, and turns with the clock.
pub fn convert_manual_position(pos: &Position, geom: &SymbolGeom) -> (r: ManualPosition)
    ensures
        r == converted(*pos, *geom),
{
    let vb: BBox = visual_bounds(geom);
    let turn: i32 = full_turn(pos.rotation as i64);
    let back: i32 = if turn == 0 {
        0
    } else {
        360 - turn
    };
    let near: i32 = (back + 45) / 90 * 90;
    let rotation: i32 = if near >= 360 {
        0
    } else {
        near
    };
    ManualPosition {
        at: Point {
            x: to_iu(pos.x as i64 - vb.x1 as i64),
            y: to_iu(pos.y as i64 + vb.y2 as i64),
        },
        rotation,
        mirror: pos.mirror,
    }
}

/// The corner that a position gives is that of the symbol's bounds around the origin that it is
/// converted to, as far as the numbers reach.
pub proof fn law_conversion_keeps_corner(pos: Position, geom: SymbolGeom)
    requires
        -0x8000_0000 <= pos.x - bounds(geom).x1 <= 0x7fff_ffff,
        -0x8000_0000 <= pos.y + bounds(geom).y2 <= 0x7fff_ffff,
    ensures
        converted(pos, geom).at.x + bounds(geom).x1 == pos.x,
        converted(pos, geom).at.y - bounds(geom).y2 == pos.y,
        converted(pos, geom).rotation % 90 == 0,
        0 <= converted(pos, geom).rotation < 360,
{
}

} // verus!
