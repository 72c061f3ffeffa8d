//! One sheet document: elements are added one by one, then written as one tree.

use vstd::prelude::*;
use crate::anchors::below;
use crate::geometry::{MirrorAxis, PinGeom, SymbolGeom};
use crate::names::{
    fresh, fresh_name, law_fresh_is_free, law_fresh_starts_with_base, sanitize_name, sanitized, views,
};
use crate::nodes::{
    at_node, at_turned_node, copy_tree, int_node, node, node1, node2, node3, node4, node5, num,
    push_copies, push_tree, push_trees, sstr, sym, v_at, v_at_turned, v_int, v_node, v_num, v_one, v_text,
    v_word, v_xy, xy_node,
};
use crate::order::{
    indices, is_text_behind, lemma_sorted_items, sort_by, sorted_by, text_behind, upto,
};
use crate::sexpr::{trees, Sexpr, SexprView};
use crate::text::{
    append_chars, chars_of, decimal, law_decimal_injective, lemma_decimal_first, text_of, to_decimal,
};
use crate::units::{sat, to_iu, Point};
use crate::symbols::opt_text;
use crate::uuid::{key_of, texts, UuidGen, UuidGenView};
use crate::writer::{
    all_written, build_power_lib_symbol, build_pwr_flag_lib_symbol, edge_rotation, effects,
    flag_label_justify, flag_tokens, infer_sheet_pin_rotation, label_justify, label_tokens,
    level_angle, plain_property, property, render_justify, stroke, text_angle, to_xy_text,
    uuid_node, v_effects, v_flag_symbol, v_plain_property, v_power_symbol, v_property, v_stroke,
    v_uuid, with_suffix, xy_text, PortDirection, KICAD_SCH_VERSION, POWER_LIB_NICKNAME,
};

verus! {

// ---------------------------------------------------------------- what is added

/// How a symbol is placed.
#[derive(Debug)]
pub struct PlaceSymbol<'a> {
    /// Library id of a registered symbol.
    pub lib_id: &'a str,
    pub reference: &'a str,
    pub value: &'a str,
    pub at: Point,
    pub rotation: i32,
    pub mirror: Option<MirrorAxis>,
    pub unit: i32,
    pub dnp: bool,
    pub footprint: Option<&'a str>,
    pub datasheet: Option<&'a str>,
    pub description: Option<&'a str>,
    pub mpn: Option<&'a str>,
    /// What the identifiers of the symbol are derived from.
    pub uuid_key: &'a str,
    /// Where the reference is written; beside the symbol where it is not said.
    pub ref_at: Option<Point>,
    /// Where the value is written; beside the symbol where it is not said.
    pub value_at: Option<Point>,
    /// How the reference is justified as it is seen.
    pub ref_justify: Vec<&'static str>,
    pub value_justify: Vec<&'static str>,
    pub hide_ref: bool,
    pub hide_value: bool,
}

/// The contents of a [`PlaceSymbol`].
pub struct PlaceView {
    pub lib_id: Seq<char>,
    pub reference: Seq<char>,
    pub value: Seq<char>,
    pub at: Point,
    pub rotation: i32,
    pub mirror: Option<MirrorAxis>,
    pub unit: i32,
    pub dnp: bool,
    pub footprint: Option<Seq<char>>,
    pub datasheet: Option<Seq<char>>,
    pub description: Option<Seq<char>>,
    pub mpn: Option<Seq<char>>,
    pub uuid_key: Seq<char>,
    pub ref_at: Option<Point>,
    pub value_at: Option<Point>,
    pub ref_justify: Seq<Seq<char>>,
    pub value_justify: Seq<Seq<char>>,
    pub hide_ref: bool,
    pub hide_value: bool,
}

impl<'a> View for PlaceSymbol<'a> {
    type V = PlaceView;

    open spec fn view(&self) -> PlaceView {
        PlaceView {
            lib_id: self.lib_id@,
            reference: self.reference@,
            value: self.value@,
            at: self.at,
            rotation: self.rotation,
            mirror: self.mirror,
            unit: self.unit,
            dnp: self.dnp,
            footprint: opt_text(self.footprint),
            datasheet: opt_text(self.datasheet),
            description: opt_text(self.description),
            mpn: opt_text(self.mpn),
            uuid_key: self.uuid_key@,
            ref_at: self.ref_at,
            value_at: self.value_at,
            ref_justify: texts(self.ref_justify@),
            value_justify: texts(self.value_justify@),
            hide_ref: self.hide_ref,
            hide_value: self.hide_value,
        }
    }
}

/// A symbol as it stands, with the reference as its key.
pub open spec fn plain_place(lib_id: Seq<char>, reference: Seq<char>, value: Seq<char>, at: Point) -> PlaceView {
    PlaceView {
        lib_id,
        reference,
        value,
        at,
        rotation: 0,
        mirror: None,
        unit: 1,
        dnp: false,
        footprint: None,
        datasheet: None,
        description: None,
        mpn: None,
        uuid_key: reference,
        ref_at: None,
        value_at: None,
        ref_justify: seq!["left"@],
        value_justify: seq!["left"@],
        hide_ref: false,
        hide_value: false,
    }
}

impl<'a> PlaceSymbol<'a> {
    /// A symbol as it stands, with the reference as its key.
    pub fn new(lib_id: &'a str, reference: &'a str, value: &'a str, at: Point) -> (r: PlaceSymbol<
        'a,
    >)
        ensures
            r@ == plain_place(lib_id@, reference@, value@, at),
    {
        let ref_justify: Vec<&'static str> = vec!["left"];
        let value_justify: Vec<&'static str> = vec!["left"];
        proof {
            assert(texts(ref_justify@) =~= seq!["left"@]);
            assert(texts(value_justify@) =~= seq!["left"@]);
        }
        PlaceSymbol {
            lib_id,
            reference,
            value,
            at,
            rotation: 0,
            mirror: None,
            unit: 1,
            dnp: false,
            footprint: None,
            datasheet: None,
            description: None,
            mpn: None,
            uuid_key: reference,
            ref_at: None,
            value_at: None,
            ref_justify,
            value_justify,
            hide_ref: false,
            hide_value: false,
        }
    }
}

/// A pin of the block of a child sheet.
#[derive(Debug)]
pub struct SheetRefPin {
    pub name: String,
    pub direction: PortDirection,
    pub at: Point,
}

/// The block of a child sheet.
#[derive(Debug)]
pub struct SheetRef {
    pub file_name: String,
    pub title: String,
    pub at: Point,
    /// Width and height.
    pub size: Point,
    pub pins: Vec<SheetRefPin>,
    pub page: String,
}

/// The contents of a [`SheetRefPin`].
pub struct SheetPinView {
    pub name: Seq<char>,
    pub direction: PortDirection,
    pub at: Point,
}

/// The contents of a [`SheetRef`].
pub struct SheetRefView {
    pub file_name: Seq<char>,
    pub title: Seq<char>,
    pub at: Point,
    pub size: Point,
    pub pins: Seq<SheetPinView>,
    pub page: Seq<char>,
}

impl View for SheetRef {
    type V = SheetRefView;

    open spec fn view(&self) -> SheetRefView {
        SheetRefView {
            file_name: self.file_name@,
            title: self.title@,
            at: self.at,
            size: self.size,
            pins: Seq::new(
                self.pins@.len(),
                |i: int|
                    SheetPinView {
                        name: self.pins@[i].name@,
                        direction: self.pins@[i].direction,
                        at: self.pins@[i].at,
                    },
            ),
            page: self.page@,
        }
    }
}

/// What a document starts from.
#[derive(Debug)]
pub struct SheetWriterOptions {
    pub title: String,
    /// Output file; all identifiers are derived from it.
    pub file_name: String,
    pub paper: String,
    pub generator: String,
    pub generator_version: String,
    pub project_name: String,
    /// The root sheet lists the sheet instances.
    pub is_root: bool,
    /// Path of the sheet among all sheets; its own identifier for the root.
    pub instance_path_prefix: Option<String>,
    /// Where the numbers of the power references start.
    pub power_ref_offset: u64,
}

/// A symbol was placed whose library symbol is not registered.
#[derive(Debug)]
pub struct NotRegistered {
    pub lib_id: String,
}

// ---------------------------------------------------------------- the document so far

/// A symbol in the library of the document.
#[derive(Debug)]
pub struct LibEntry {
    pub id: String,
    pub tree: Sexpr,
    pub pin_numbers: Vec<String>,
}

pub struct LibView {
    pub id: Seq<char>,
    pub tree: SexprView,
    pub pins: Seq<Seq<char>>,
}

impl View for LibEntry {
    type V = LibView;

    open spec fn view(&self) -> LibView {
        LibView { id: self.id@, tree: self.tree@, pins: views(self.pin_numbers@) }
    }
}

pub open spec fn lib_views(v: Seq<LibEntry>) -> Seq<LibView> {
    Seq::new(v.len(), |i: int| v[i]@)
}

/// The library id of the symbol of a rail.
#[derive(Debug)]
pub struct PowerId {
    pub net: String,
    pub id: String,
}

pub open spec fn power_views(v: Seq<PowerId>) -> Seq<(Seq<char>, Seq<char>)> {
    Seq::new(v.len(), |i: int| (v[i].net@, v[i].id@))
}

/// The symbols of the rails so far: no rail is listed twice, and no two share a symbol.
#[derive(Debug)]
pub struct PowerIds {
    list: Vec<PowerId>,
}

impl View for PowerIds {
    type V = Seq<(Seq<char>, Seq<char>)>;

    closed spec fn view(&self) -> Seq<(Seq<char>, Seq<char>)> {
        power_views(self.list@)
    }
}

impl PowerIds {
    #[verifier::type_invariant]
    spec fn sound(self) -> bool {
        power_ids_sound(self@)
    }

    fn new() -> (r: PowerIds)
        ensures
            r@ == Seq::<(Seq<char>, Seq<char>)>::empty(),
    {
        let list: Vec<PowerId> = Vec::new();
        proof {
            assert(power_views(list@) =~= Seq::<(Seq<char>, Seq<char>)>::empty());
        }
        PowerIds { list }
    }

    /// The symbol that is listed for the rail.
    fn find(&self, net_name: &str) -> (r: Option<String>)
        ensures
            match r {
                Some(id) => power_id_at(self@, net_name@, 0) == Some(id@),
                None => power_id_at(self@, net_name@, 0) is None,
            },
    {
        let name: String = net_name.to_owned();
        let mut i: usize = 0;
        while i < self.list.len()
            invariant
                i <= self.list@.len(),
                name@ == net_name@,
                power_id_at(self@, net_name@, 0) == power_id_at(self@, net_name@, i as int),
            decreases self.list.len() - i,
        {
            proof {
                assert(self@[i as int] == (self.list@[i as int].net@, self.list@[i as int].id@));
            }
            if self.list[i].net == name {
                return Some(self.list[i].id.clone());
            }
            i = i + 1;
        }
        None
    }

    /// A symbol for a rail that has none yet.
    fn new_id(&self, net_name: &str) -> (id: String)
        requires
            power_id_at(self@, net_name@, 0) is None,
        ensures
            id@ == power_id_of(self@, net_name@),
    {
        let mut base: Vec<char> = chars_of(POWER_LIB_NICKNAME);
        base.push(':');
        append_chars(&mut base, &chars_of(sanitize_name(net_name).as_str()));
        let mut taken: Vec<String> = Vec::new();
        let mut i: usize = 0;
        while i < self.list.len()
            invariant
                i <= self.list@.len(),
                views(taken@) =~= second_of(self@).take(i as int),
            decreases self.list.len() - i,
        {
            let ghost before = views(taken@);
            taken.push(self.list[i].id.clone());
            i = i + 1;
            proof {
                assert(views(taken@) =~= before.push(second_of(self@)[i - 1]));
            }
        }
        let none: Vec<char> = Vec::new();
        proof {
            assert(views(taken@) =~= second_of(self@));
            assert(none@ =~= Seq::<char>::empty());
            assert(base@ =~= POWER_LIB_NICKNAME@ + seq![':'] + sanitized(net_name@));
        }
        fresh_name(&base, &none, &taken)
    }

    /// With the new symbol of a rail.
    fn with(self, net_name: &str, id: &String) -> (r: PowerIds)
        requires
            power_id_at(self@, net_name@, 0) is None,
            id@ == power_id_of(self@, net_name@),
        ensures
            r@ == power_ids_after(self@, net_name@),
    {
        proof {
            use_type_invariant(&self);
            law_power_ids_stay_sound(self@, net_name@);
        }
        let ghost ids = self@;
        let mut list: Vec<PowerId> = self.list;
        list.push(PowerId { net: net_name.to_owned(), id: id.clone() });
        proof {
            assert(power_views(list@) =~= ids.push((net_name@, id@)));
        }
        PowerIds { list }
    }
}

/// A document that elements are added to.
#[derive(Debug)]
pub struct SheetWriter {
    title: String,
    paper: String,
    generator: String,
    generator_version: String,
    project_name: String,
    is_root: bool,
    instance_path_prefix: Option<String>,
    power_ref_offset: u64,
    uuids: UuidGen,
    libs: Vec<LibEntry>,
    power_lib_ids: PowerIds,
    junctions: Vec<Sexpr>,
    no_connects: Vec<Sexpr>,
    wires: Vec<Sexpr>,
    labels: Vec<Sexpr>,
    global_labels: Vec<Sexpr>,
    hier_labels: Vec<Sexpr>,
    texts: Vec<Sexpr>,
    graphics: Vec<Sexpr>,
    symbols: Vec<Sexpr>,
    sheets: Vec<Sexpr>,
    /// References of the power symbols so far.
    power_refs: Vec<String>,
    /// References of the flags so far.
    flag_refs: Vec<String>,
}

/// The contents of a [`SheetWriter`].
pub struct WriterView {
    pub title: Seq<char>,
    pub paper: Seq<char>,
    pub generator: Seq<char>,
    pub generator_version: Seq<char>,
    pub project: Seq<char>,
    pub is_root: bool,
    pub prefix: Option<Seq<char>>,
    pub offset: nat,
    pub uuids: UuidGenView,
    pub libs: Seq<LibView>,
    pub power_ids: Seq<(Seq<char>, Seq<char>)>,
    pub junctions: Seq<SexprView>,
    pub no_connects: Seq<SexprView>,
    pub wires: Seq<SexprView>,
    pub labels: Seq<SexprView>,
    pub global_labels: Seq<SexprView>,
    pub hier_labels: Seq<SexprView>,
    pub texts: Seq<SexprView>,
    pub graphics: Seq<SexprView>,
    pub symbols: Seq<SexprView>,
    pub sheets: Seq<SexprView>,
    pub power_refs: Seq<Seq<char>>,
    pub flag_refs: Seq<Seq<char>>,
}

impl View for SheetWriter {
    type V = WriterView;

    closed spec fn view(&self) -> WriterView {
        WriterView {
            title: self.title@,
            paper: self.paper@,
            generator: self.generator@,
            generator_version: self.generator_version@,
            project: self.project_name@,
            is_root: self.is_root,
            prefix: crate::extract::opt_chars(self.instance_path_prefix),
            offset: self.power_ref_offset as nat,
            uuids: self.uuids@,
            libs: lib_views(self.libs@),
            power_ids: self.power_lib_ids@,
            junctions: trees(self.junctions@),
            no_connects: trees(self.no_connects@),
            wires: trees(self.wires@),
            labels: trees(self.labels@),
            global_labels: trees(self.global_labels@),
            hier_labels: trees(self.hier_labels@),
            texts: trees(self.texts@),
            graphics: trees(self.graphics@),
            symbols: trees(self.symbols@),
            sheets: trees(self.sheets@),
            power_refs: views(self.power_refs@),
            flag_refs: views(self.flag_refs@),
        }
    }
}

/// What a document starts from.
pub struct OptionsView {
    pub title: Seq<char>,
    pub file_name: Seq<char>,
    pub paper: Seq<char>,
    pub generator: Seq<char>,
    pub generator_version: Seq<char>,
    pub project: Seq<char>,
    pub is_root: bool,
    pub prefix: Option<Seq<char>>,
    pub offset: nat,
}

impl View for SheetWriterOptions {
    type V = OptionsView;

    open spec fn view(&self) -> OptionsView {
        OptionsView {
            title: self.title@,
            file_name: self.file_name@,
            paper: self.paper@,
            generator: self.generator@,
            generator_version: self.generator_version@,
            project: self.project_name@,
            is_root: self.is_root,
            prefix: crate::extract::opt_chars(self.instance_path_prefix),
            offset: self.power_ref_offset as nat,
        }
    }
}

/// An empty document.
pub open spec fn fresh_document(o: OptionsView) -> WriterView {
    WriterView {
        title: o.title,
        paper: o.paper,
        generator: o.generator,
        generator_version: o.generator_version,
        project: o.project,
        is_root: o.is_root,
        prefix: o.prefix,
        offset: o.offset,
        uuids: UuidGenView { seed: o.file_name, issued: Seq::empty() },
        libs: Seq::empty(),
        power_ids: Seq::empty(),
        junctions: Seq::empty(),
        no_connects: Seq::empty(),
        wires: Seq::empty(),
        labels: Seq::empty(),
        global_labels: Seq::empty(),
        hier_labels: Seq::empty(),
        texts: Seq::empty(),
        graphics: Seq::empty(),
        symbols: Seq::empty(),
        sheets: Seq::empty(),
        power_refs: Seq::empty(),
        flag_refs: Seq::empty(),
    }
}

/// The place of a library symbol, looked for from `i` on.
pub open spec fn lib_at(libs: Seq<LibView>, id: Seq<char>, i: int) -> Option<int>
    decreases libs.len() - i,
{
    if i < 0 || i >= libs.len() {
        None
    } else if libs[i].id == id {
        Some(i)
    } else {
        lib_at(libs, id, i + 1)
    }
}

/// The library with one more symbol, unless it holds one of this id.
pub open spec fn with_lib(libs: Seq<LibView>, lib: LibView) -> Seq<LibView> {
    if lib_at(libs, lib.id, 0) is Some {
        libs
    } else {
        libs.push(lib)
    }
}

/// The symbol of a rail that has one, looked for from `i` on.
pub open spec fn power_id_at(ids: Seq<(Seq<char>, Seq<char>)>, net: Seq<char>, i: int) -> Option<Seq<char>>
    decreases ids.len() - i,
{
    if i < 0 || i >= ids.len() {
        None
    } else if ids[i].0 == net {
        Some(ids[i].1)
    } else {
        power_id_at(ids, net, i + 1)
    }
}

pub open spec fn second_of(ids: Seq<(Seq<char>, Seq<char>)>) -> Seq<Seq<char>> {
    Seq::new(ids.len(), |i: int| ids[i].1)
}

/// The symbol of a rail: two rails never share one, though their names may look alike.
pub open spec fn power_id_of(ids: Seq<(Seq<char>, Seq<char>)>, net: Seq<char>) -> Seq<char> {
    match power_id_at(ids, net, 0) {
        Some(id) => id,
        None => fresh(power_id_base(net), Seq::empty(), second_of(ids)),
    }
}

pub open spec fn power_ids_after(ids: Seq<(Seq<char>, Seq<char>)>, net: Seq<char>) -> Seq<
    (Seq<char>, Seq<char>),
> {
    match power_id_at(ids, net, 0) {
        Some(_) => ids,
        None => ids.push((net, power_id_of(ids, net))),
    }
}

/// What the symbols of rails are after the first `n` of these rails got one on a new sheet.
pub open spec fn power_ids_upto(nets: Seq<Seq<char>>, n: int) -> Seq<(Seq<char>, Seq<char>)>
    decreases n,
{
    if n <= 0 || n > nets.len() {
        Seq::empty()
    } else {
        power_ids_after(power_ids_upto(nets, n - 1), nets[n - 1])
    }
}

/// The symbol that rail number `k` gets.
pub open spec fn power_id_given(nets: Seq<Seq<char>>, k: int) -> Seq<char> {
    power_id_of(power_ids_upto(nets, k), nets[k])
}

/// What the symbol of a rail is named after.
pub open spec fn power_id_base(net: Seq<char>) -> Seq<char> {
    POWER_LIB_NICKNAME@ + seq![':'] + sanitized(net)
}

/// No rail is listed twice, no two share a symbol, and each is named after its rail.
pub open spec fn power_ids_sound(ids: Seq<(Seq<char>, Seq<char>)>) -> bool {
    &&& forall|i: int, j: int|
        0 <= i < j < ids.len() ==> (#[trigger] ids[i]).0 != (#[trigger] ids[j]).0 && ids[i].1
            != ids[j].1
    &&& forall|i: int|
        0 <= i < ids.len() ==> power_id_base((#[trigger] ids[i]).0).is_prefix_of(ids[i].1)
}

proof fn lemma_power_id_at(ids: Seq<(Seq<char>, Seq<char>)>, net: Seq<char>, from: int)
    requires
        0 <= from,
    ensures
        match power_id_at(ids, net, from) {
            Some(id) => exists|i: int|
                from <= i < ids.len() && (#[trigger] ids[i]).0 == net && ids[i].1 == id,
            None => forall|i: int| from <= i < ids.len() ==> (#[trigger] ids[i]).0 != net,
        },
    decreases ids.len() - from,
{
    if from < ids.len() && ids[from].0 != net {
        lemma_power_id_at(ids, net, from + 1);
    }
}

/// One more rail keeps the list of symbols sound, and gets the symbol that is listed for it then;
/// what was listed stays.
pub proof fn law_power_ids_stay_sound(ids: Seq<(Seq<char>, Seq<char>)>, net: Seq<char>)
    requires
        power_ids_sound(ids),
    ensures
        power_ids_sound(power_ids_after(ids, net)),
        ids.is_prefix_of(power_ids_after(ids, net)),
        power_ids_after(ids, net).contains((net, power_id_of(ids, net))),
{
    let now = power_ids_after(ids, net);
    lemma_power_id_at(ids, net, 0);
    match power_id_at(ids, net, 0) {
        Some(id) => {
            let i = choose|i: int|
                0 <= i < ids.len() && (#[trigger] ids[i]).0 == net && ids[i].1 == id;
            assert(now[i] == (net, id));
            assert(now.subrange(0, ids.len() as int) =~= ids);
        },
        None => {
            let id = power_id_of(ids, net);
            law_fresh_is_free(power_id_base(net), Seq::empty(), second_of(ids));
            law_fresh_starts_with_base(power_id_base(net), Seq::empty(), second_of(ids));
            assert forall|i: int, j: int| 0 <= i < j < now.len() implies (#[trigger] now[i]).0 != (
            #[trigger] now[j]).0 && now[i].1 != now[j].1 by {
                assert(now[i] == ids[i]);
                if j == ids.len() {
                    assert(second_of(ids)[i] == ids[i].1);
                    assert(second_of(ids).contains(ids[i].1));
                } else {
                    assert(now[j] == ids[j]);
                }
            }
            assert(now[ids.len() as int] == (net, id));
            assert(now.subrange(0, ids.len() as int) =~= ids);
        },
    }
}

proof fn lemma_power_ids_upto(nets: Seq<Seq<char>>, j: int, k: int)
    requires
        0 <= j <= k <= nets.len(),
    ensures
        power_ids_sound(power_ids_upto(nets, k)),
        power_ids_upto(nets, j).is_prefix_of(power_ids_upto(nets, k)),
    decreases k,
{
    if k > 0 {
        lemma_power_ids_upto(
            nets,
            if j < k {
                j
            } else {
                k - 1
            },
            k - 1,
        );
        law_power_ids_stay_sound(power_ids_upto(nets, k - 1), nets[k - 1]);
    }
    let a = power_ids_upto(nets, j);
    let c = power_ids_upto(nets, k);
    if j < k {
        let b = power_ids_upto(nets, k - 1);
        assert forall|i: int| 0 <= i < a.len() implies a[i] == c[i] by {
            assert(a[i] == b.subrange(0, a.len() as int)[i]);
            assert(b[i] == c.subrange(0, b.len() as int)[i]);
        }
    }
    assert(c.subrange(0, a.len() as int) =~= a);
}

/// Two rails never share a symbol, though their names may look alike once they are sanitized; the
/// same rail always gets the same one; and each is named after its rail.
pub proof fn law_power_ids_are_unique(nets: Seq<Seq<char>>, j: int, k: int)
    requires
        0 <= j <= k < nets.len(),
    ensures
        (power_id_given(nets, j) == power_id_given(nets, k)) == (nets[j] == nets[k]),
        power_id_base(nets[k]).is_prefix_of(power_id_given(nets, k)),
{
    let ids = power_ids_upto(nets, j + 1);
    let all = power_ids_upto(nets, k + 1);
    lemma_power_ids_upto(nets, j, j);
    lemma_power_ids_upto(nets, k, k);
    lemma_power_ids_upto(nets, j + 1, k + 1);
    law_power_ids_stay_sound(power_ids_upto(nets, j), nets[j]);
    law_power_ids_stay_sound(power_ids_upto(nets, k), nets[k]);
    let x = choose|x: int|
        0 <= x < ids.len() && ids[x] == (nets[j], power_id_given(nets, j));
    let y = choose|y: int|
        0 <= y < all.len() && all[y] == (nets[k], power_id_given(nets, k));
    assert(all.subrange(0, ids.len() as int)[x] == ids[x]);
    assert(all[x] == ids[x]);
    assert(all[y].0 == nets[k]);
    if x < y {
        assert(all[x].0 != all[y].0 && all[x].1 != all[y].1);
    } else if y < x {
        assert(all[y].0 != all[x].0 && all[y].1 != all[x].1);
    }
}

/// Of two calls for the symbol of a rail, with any others between them, the second gives what the
/// first gave exactly where the rail is the same.
pub proof fn law_power_ids_tell_rails_apart(
    ids: Seq<(Seq<char>, Seq<char>)>,
    first: Seq<char>,
    later: Seq<(Seq<char>, Seq<char>)>,
    second: Seq<char>,
)
    requires
        power_ids_sound(ids),
        power_ids_sound(later),
        power_ids_after(ids, first).is_prefix_of(later),
    ensures
        (power_id_of(ids, first) == power_id_of(later, second)) == (first == second),
        power_id_base(second).is_prefix_of(power_id_of(later, second)),
{
    let one = power_ids_after(ids, first);
    let all = power_ids_after(later, second);
    law_power_ids_stay_sound(ids, first);
    law_power_ids_stay_sound(later, second);
    let x = choose|x: int| 0 <= x < one.len() && one[x] == (first, power_id_of(ids, first));
    let y = choose|y: int| 0 <= y < all.len() && all[y] == (second, power_id_of(later, second));
    assert(later[x] == later.subrange(0, one.len() as int)[x]);
    assert(all[x] == all.subrange(0, later.len() as int)[x]);
    assert(all[x] == one[x]);
    assert(all[y].0 == second);
    if x < y {
        assert(all[x].0 != all[y].0 && all[x].1 != all[y].1);
    } else if y < x {
        assert(all[y].0 != all[x].0 && all[y].1 != all[x].1);
    }
}

/// A number of at least two digits.
pub open spec fn two_digits(n: nat) -> Seq<char> {
    if n < 10 {
        seq!['0'] + decimal(n)
    } else {
        decimal(n)
    }
}

/// Two numbers with the same notation of at least two digits are the same number.
pub proof fn law_two_digits_injective(a: nat, b: nat)
    requires
        two_digits(a) == two_digits(b),
    ensures
        a == b,
{
    let s = two_digits(a);
    let t = two_digits(b);
    if a < 10 {
        assert(s[0] == '0');
    } else {
        lemma_decimal_first(a);
    }
    if b < 10 {
        assert(t[0] == '0');
    } else {
        lemma_decimal_first(b);
    }
    if a < 10 && b < 10 {
        assert(s.skip(1) =~= decimal(a));
        assert(t.skip(1) =~= decimal(b));
    }
    law_decimal_injective(a, b);
}

/// Half a text's height under or over a point.
pub open spec fn moved_by(p: Point, dx: int, dy: int) -> Point {
    Point { x: sat(p.x + dx), y: sat(p.y + dy) }
}

/// The pins of a placed symbol with their identifiers.
pub open spec fn pin_nodes(u: UuidGenView, key: Seq<char>, pins: Seq<Seq<char>>, n: int) -> (Seq<SexprView>, UuidGenView)
    decreases n,
{
    if n <= 0 || n > pins.len() {
        (Seq::empty(), u)
    } else {
        let (before, v) = pin_nodes(u, key, pins, n - 1);
        let k = key_of(seq!["pin"@, key, pins[n - 1]]);
        (
            before.push(v_node("pin"@, seq![v_text(pins[n - 1]), v_uuid(v.next_id(k))])),
            v.after(k),
        )
    }
}

/// A hidden field, where it has a value.
pub open spec fn v_field(name: Seq<char>, value: Option<Seq<char>>, at: Point) -> Seq<SexprView> {
    match value {
        Some(v) => seq![v_plain_property(name, v, at, true)],
        None => Seq::empty(),
    }
}

/// What every symbol says of its use.
pub open spec fn v_uses(dnp: bool) -> Seq<SexprView> {
    seq![
        v_one("exclude_from_sim"@, v_word("no"@)),
        v_one("in_bom"@, v_word("yes"@)),
        v_one("on_board"@, v_word("yes"@)),
        v_one(
            "dnp"@,
            v_word(
                if dnp {
                    "yes"@
                } else {
                    "no"@
                },
            ),
        ),
    ]
}

pub open spec fn v_mirror(mirror: Option<MirrorAxis>) -> Seq<SexprView> {
    match mirror {
        Some(MirrorAxis::X) => seq![v_one("mirror"@, v_word("x"@))],
        Some(MirrorAxis::Y) => seq![v_one("mirror"@, v_word("y"@))],
        None => Seq::empty(),
    }
}

/// What the block of a child sheet starts with.
#[verifier::opaque]
pub open spec fn sheet_head(o: SheetRefView, id: Seq<char>) -> Seq<SexprView> {
    let used = Seq::<SexprView>::empty().push(v_at(o.at)).push(
        v_node("size"@, seq![v_num(o.size.x), v_num(o.size.y)]),
    ) + v_uses(false);
    used.push(
        v_node(
            "stroke"@,
            seq![v_one("width"@, v_num(1524)), v_one("type"@, v_word("solid"@))],
        ),
    ).push(
        v_one("fill"@, v_node("color"@, seq![v_int(0), v_int(0), v_int(0), v_int(0)])),
    ).push(v_uuid(id)).push(
        v_property(
            "Sheetname"@,
            o.title,
            moved_by(o.at, 0, -7116),
            0,
            seq!["left"@, "bottom"@],
            false,
        ),
    ).push(
        v_property(
            "Sheetfile"@,
            o.file_name,
            moved_by(o.at, 0, o.size.y + 5842),
            0,
            seq!["left"@, "top"@],
            false,
        ),
    )
}

/// What a placed symbol starts with: everything but its pins and its instance.
#[verifier::opaque]
pub open spec fn symbol_head(o: PlaceView, id: Seq<char>) -> Seq<SexprView> {
    let angle = level_angle(o.rotation as int);
    let ref_at = match o.ref_at {
        Some(p) => p,
        None => moved_by(o.at, 25400, -12700),
    };
    let value_at = match o.value_at {
        Some(p) => p,
        None => moved_by(o.at, 25400, 12700),
    };
    let begun = Seq::<SexprView>::empty().push(v_one("lib_id"@, v_text(o.lib_id))).push(
        v_at_turned(o.at, o.rotation as int),
    ) + v_mirror(o.mirror);
    let used = begun.push(v_one("unit"@, v_int(o.unit as int))) + v_uses(o.dnp);
    let named = used.push(v_uuid(id)).push(
        v_property(
            "Reference"@,
            o.reference,
            ref_at,
            angle,
            all_written(o.ref_justify, o.rotation as int, o.mirror),
            o.hide_ref,
        ),
    ).push(
        v_property(
            "Value"@,
            o.value,
            value_at,
            angle,
            all_written(o.value_justify, o.rotation as int, o.mirror),
            o.hide_value,
        ),
    );
    named + v_field("Footprint"@, o.footprint, o.at) + v_field("Datasheet"@, o.datasheet, o.at)
        + v_field("Description"@, o.description, o.at) + v_field("MPN"@, o.mpn, o.at)
}

/// The first `n` pins of the block of a child sheet: their names reach into the block.
pub open spec fn sheet_pins(u: UuidGenView, o: SheetRefView, n: int) -> (Seq<SexprView>, UuidGenView)
    decreases n,
{
    if n <= 0 || n > o.pins.len() {
        (Seq::empty(), u)
    } else {
        let (before, v) = sheet_pins(u, o, n - 1);
        let p = o.pins[n - 1];
        let rotation = edge_rotation(p.at, o.at.x, o.at.y, o.size.x);
        let k = key_of(seq!["sheet_pin"@, o.file_name, p.name]);
        (
            before.push(
                v_node(
                    "pin"@,
                    seq![
                        v_text(p.name),
                        v_word(p.direction.spec_shape()),
                        v_at_turned(p.at, rotation),
                        v_effects(
                            if rotation == 0 || rotation == 90 {
                                seq!["right"@]
                            } else {
                                seq!["left"@]
                            },
                            false,
                        ),
                        v_uuid(v.next_id(k)),
                    ],
                ),
            ),
            v.after(k),
        )
    }
}

impl WriterView {
    /// The path of the sheet among all sheets.
    pub open spec fn path_prefix(self) -> Seq<char> {
        match self.prefix {
            Some(p) => p,
            None => seq!['/'] + self.uuids.root_id(),
        }
    }

    /// The block that ties an element to the project.
    pub open spec fn instances(self, kids: Seq<SexprView>) -> SexprView {
        v_one(
            "instances"@,
            v_node(
                "project"@,
                seq![
                    v_text(self.project),
                    v_node("path"@, seq![v_text(self.path_prefix())] + kids),
                ],
            ),
        )
    }

    pub open spec fn symbol_instances(self, reference: Seq<char>, unit: int) -> SexprView {
        self.instances(
            seq![v_one("reference"@, v_text(reference)), v_one("unit"@, v_int(unit))],
        )
    }

    /// A placed symbol.
    pub open spec fn symbol_node(self, o: PlaceView, id: Seq<char>, pins: Seq<SexprView>) -> SexprView {
        v_node(
            "symbol"@,
            symbol_head(o, id) + pins + seq![self.symbol_instances(o.reference, o.unit as int)],
        )
    }

    /// The document with a placed symbol.
    pub open spec fn with_symbol(self, o: PlaceView) -> WriterView {
        let pins = self.libs[lib_at(self.libs, o.lib_id, 0)->0].pins;
        let k = key_of(seq!["symbol"@, o.uuid_key]);
        let (nodes, u) = pin_nodes(self.uuids.after(k), o.uuid_key, pins, pins.len() as int);
        WriterView {
            uuids: u,
            symbols: self.symbols.push(self.symbol_node(o, self.uuids.next_id(k), nodes)),
            ..self
        }
    }

    /// The document with one straight wire.
    pub open spec fn with_run(self, a: Point, b: Point) -> WriterView {
        let k = key_of(seq!["wire"@, xy_text(a), xy_text(b)]);
        WriterView {
            uuids: self.uuids.after(k),
            wires: self.wires.push(
                v_node(
                    "wire"@,
                    seq![
                        v_node("pts"@, seq![v_xy(a), v_xy(b)]),
                        v_stroke(),
                        v_uuid(self.uuids.next_id(k)),
                    ],
                ),
            ),
            ..self
        }
    }

    /// The document with the first `n` legs of a wire.
    pub open spec fn with_wire(self, points: Seq<Point>, n: int) -> WriterView
        decreases n,
    {
        if n <= 0 || n >= points.len() {
            self
        } else {
            self.with_wire(points, n - 1).with_run(points[n - 1], points[n])
        }
    }

    pub open spec fn with_junction(self, at: Point) -> WriterView {
        let k = key_of(seq!["junction"@, xy_text(at)]);
        WriterView {
            uuids: self.uuids.after(k),
            junctions: self.junctions.push(
                v_node(
                    "junction"@,
                    seq![
                        v_at(at),
                        v_one("diameter"@, v_int(0)),
                        v_node("color"@, seq![v_int(0), v_int(0), v_int(0), v_int(0)]),
                        v_uuid(self.uuids.next_id(k)),
                    ],
                ),
            ),
            ..self
        }
    }

    pub open spec fn with_no_connect(self, at: Point) -> WriterView {
        let k = key_of(seq!["no_connect"@, xy_text(at)]);
        WriterView {
            uuids: self.uuids.after(k),
            no_connects: self.no_connects.push(
                v_node("no_connect"@, seq![v_at(at), v_uuid(self.uuids.next_id(k))]),
            ),
            ..self
        }
    }

    pub open spec fn with_net_label(self, name: Seq<char>, at: Point, rotation: int) -> WriterView {
        let k = key_of(seq!["label"@, name, xy_text(at)]);
        WriterView {
            uuids: self.uuids.after(k),
            labels: self.labels.push(
                v_node(
                    "label"@,
                    seq![
                        v_text(name),
                        v_at_turned(at, rotation),
                        v_effects(label_tokens(rotation), false),
                        v_uuid(self.uuids.next_id(k)),
                    ],
                ),
            ),
            ..self
        }
    }

    /// A label in a flag.
    pub open spec fn flag_label(
        self,
        tag: Seq<char>,
        name: Seq<char>,
        direction: PortDirection,
        at: Point,
        rotation: int,
        id: Seq<char>,
    ) -> SexprView {
        v_node(
            tag,
            seq![
                v_text(name),
                v_one("shape"@, v_word(direction.spec_shape())),
                v_at_turned(at, rotation),
                v_effects(flag_tokens(rotation), false),
                v_uuid(id),
            ],
        )
    }

    pub open spec fn with_global_label(
        self,
        name: Seq<char>,
        at: Point,
        rotation: int,
        direction: PortDirection,
    ) -> WriterView {
        let k = key_of(seq!["global_label"@, name, xy_text(at)]);
        WriterView {
            uuids: self.uuids.after(k),
            global_labels: self.global_labels.push(
                self.flag_label(
                    "global_label"@,
                    name,
                    direction,
                    at,
                    rotation,
                    self.uuids.next_id(k),
                ),
            ),
            ..self
        }
    }

    pub open spec fn with_hier_label(
        self,
        name: Seq<char>,
        direction: PortDirection,
        at: Point,
        rotation: int,
    ) -> WriterView {
        let k = key_of(seq!["hier_label"@, name, xy_text(at)]);
        WriterView {
            uuids: self.uuids.after(k),
            hier_labels: self.hier_labels.push(
                self.flag_label(
                    "hierarchical_label"@,
                    name,
                    direction,
                    at,
                    rotation,
                    self.uuids.next_id(k),
                ),
            ),
            ..self
        }
    }

    /// A free text.
    pub open spec fn text_node(
        self,
        text: Seq<char>,
        at: Point,
        rotation: int,
        justify: Seq<Seq<char>>,
        id: Seq<char>,
    ) -> SexprView {
        v_node(
            "text"@,
            seq![
                v_text(text),
                v_one("exclude_from_sim"@, v_word("no"@)),
                v_at_turned(at, rotation),
                v_effects(justify, false),
                v_uuid(id),
            ],
        )
    }

    pub open spec fn with_text(self, text: Seq<char>, at: Point, rotation: int) -> WriterView {
        let k = key_of(seq!["text"@, text, xy_text(at)]);
        WriterView {
            uuids: self.uuids.after(k),
            texts: self.texts.push(
                self.text_node(text, at, rotation, Seq::empty(), self.uuids.next_id(k)),
            ),
            ..self
        }
    }

    pub open spec fn with_zone_title(self, text: Seq<char>, at: Point) -> WriterView {
        let k = key_of(seq!["ztitle"@, text, xy_text(at)]);
        WriterView {
            uuids: self.uuids.after(k),
            texts: self.texts.push(
                self.text_node(text, at, 0, seq!["left"@, "bottom"@], self.uuids.next_id(k)),
            ),
            ..self
        }
    }

    /// A dashed outline without any electrical meaning.
    pub open spec fn with_zone_rect(self, start: Point, end: Point) -> WriterView {
        let k = key_of(seq!["zone"@, xy_text(start), xy_text(end)]);
        WriterView {
            uuids: self.uuids.after(k),
            graphics: self.graphics.push(
                v_node(
                    "rectangle"@,
                    seq![
                        v_node("start"@, seq![v_num(start.x), v_num(start.y)]),
                        v_node("end"@, seq![v_num(end.x), v_num(end.y)]),
                        v_node(
                            "stroke"@,
                            seq![
                                v_one("width"@, v_num(1270)),
                                v_one("type"@, v_word("dash"@)),
                                v_node(
                                    "color"@,
                                    seq![v_int(130), v_int(130), v_int(130), v_num(10000)],
                                ),
                            ],
                        ),
                        v_one("fill"@, v_one("type"@, v_word("none"@))),
                        v_uuid(self.uuids.next_id(k)),
                    ],
                ),
            ),
            ..self
        }
    }

    /// A generated symbol on the sheet: a power symbol or a flag.
    pub open spec fn mark_node(
        self,
        lib_id: Seq<char>,
        at: Point,
        rotation: int,
        reference: Seq<char>,
        ref_at: Point,
        value: Seq<char>,
        value_at: Point,
        hide_value: bool,
    ) -> SexprView {
        let k = key_of(seq!["symbol"@, reference]);
        let p = key_of(seq!["pin"@, reference, "1"@]);
        let begun = Seq::<SexprView>::empty().push(v_one("lib_id"@, v_text(lib_id))).push(
            v_at_turned(at, rotation),
        ).push(v_one("unit"@, v_int(1))) + v_uses(false);
        v_node(
            "symbol"@,
            begun.push(v_uuid(self.uuids.next_id(k))).push(
                v_plain_property("Reference"@, reference, ref_at, true),
            ).push(v_plain_property("Value"@, value, value_at, hide_value)).push(
                v_node("pin"@, seq![v_text("1"@), v_uuid(self.uuids.after(k).next_id(p))]),
            ).push(self.symbol_instances(reference, 1)),
        )
    }

    pub open spec fn uuids_after_mark(self, reference: Seq<char>) -> UuidGenView {
        self.uuids.after(key_of(seq!["symbol"@, reference])).after(
            key_of(seq!["pin"@, reference, "1"@]),
        )
    }

    /// The reference of the next power symbol.
    pub open spec fn next_power_ref(self) -> Seq<char> {
        "#PWR"@ + two_digits(self.offset + self.power_refs.len() + 1)
    }

    /// The document with a power symbol: the name of the net is its value.
    pub open spec fn with_power_symbol(self, net: Seq<char>, at: Point, down: bool) -> WriterView {
        let id = power_id_of(self.power_ids, net);
        let reference = self.next_power_ref();
        let (value_at, ref_at) = if down {
            (moved_by(at, 0, 38100), moved_by(at, 0, 63500))
        } else {
            (moved_by(at, 0, -35560), moved_by(at, 0, -63500))
        };
        WriterView {
            uuids: self.uuids_after_mark(reference),
            libs: with_lib(
                self.libs,
                LibView { id, tree: v_power_symbol(id, net, down), pins: seq!["1"@] },
            ),
            power_ids: power_ids_after(self.power_ids, net),
            symbols: self.symbols.push(
                self.mark_node(id, at, 0, reference, ref_at, net, value_at, false),
            ),
            power_refs: self.power_refs.push(reference),
            ..self
        }
    }

    /// The reference of the next flag.
    pub open spec fn next_flag_ref(self) -> Seq<char> {
        "#FLG"@ + two_digits(self.offset + self.flag_refs.len() + 1)
    }

    /// The document with a flag that declares a rail driven.
    pub open spec fn with_pwr_flag(self, at: Point, rotation: int) -> WriterView {
        let id = POWER_LIB_NICKNAME@ + ":PWR_FLAG"@;
        let reference = self.next_flag_ref();
        WriterView {
            uuids: self.uuids_after_mark(reference),
            libs: with_lib(
                self.libs,
                LibView { id, tree: v_flag_symbol(id), pins: seq!["1"@] },
            ),
            symbols: self.symbols.push(
                self.mark_node(
                    id,
                    at,
                    rotation,
                    reference,
                    moved_by(at, 0, -19050),
                    "PWR_FLAG"@,
                    moved_by(at, 0, -38100),
                    true,
                ),
            ),
            flag_refs: self.flag_refs.push(reference),
            ..self
        }
    }

    /// The identifier that the block of a child sheet gets.
    pub open spec fn sheet_id(self, o: SheetRefView) -> Seq<char> {
        self.uuids.next_id(key_of(seq!["sheet"@, o.file_name, o.title]))
    }

    /// The document with the block of a child sheet.
    pub open spec fn with_sheet_ref(self, o: SheetRefView) -> WriterView {
        let k = key_of(seq!["sheet"@, o.file_name, o.title]);
        let (pins, u) = sheet_pins(self.uuids.after(k), o, o.pins.len() as int);
        WriterView {
            uuids: u,
            sheets: self.sheets.push(
                v_node(
                    "sheet"@,
                    (sheet_head(o, self.sheet_id(o)) + pins).push(
                        self.instances(seq![v_one("page"@, v_text(o.page))]),
                    ),
                ),
            ),
            ..self
        }
    }

    /// The library in the order of the ids.
    pub open spec fn lib_trees(self) -> Seq<SexprView> {
        let order = sorted_by(upto(self.libs.len() as int), lib_behind(self.libs));
        Seq::new(order.len(), |i: int| self.libs[order[i] as int].tree)
    }

    /// The whole document: the head, the library, then the elements by their kind.
    pub open spec fn document(self) -> SexprView {
        let head = Seq::<SexprView>::empty().push(
            v_one("version"@, v_int(KICAD_SCH_VERSION as int)),
        ).push(v_one("generator"@, v_text(self.generator))).push(
            v_one("generator_version"@, v_text(self.generator_version)),
        ).push(v_uuid(self.uuids.root_id())).push(v_one("paper"@, v_text(self.paper))).push(
            v_one("title_block"@, v_one("title"@, v_text(self.title))),
        ).push(v_node("lib_symbols"@, self.lib_trees()));
        let body = head + self.junctions + self.no_connects + self.wires + self.labels
            + self.global_labels + self.hier_labels + self.texts + self.graphics + self.symbols
            + self.sheets;
        let listed = if self.is_root {
            body.push(
                v_one(
                    "sheet_instances"@,
                    v_node("path"@, seq![v_text("/"@), v_one("page"@, v_text("1"@))]),
                ),
            )
        } else {
            body
        };
        v_node("kicad_sch"@, listed.push(v_one("embedded_fonts"@, v_word("no"@))))
    }
}

pub open spec fn lib_behind(libs: Seq<LibView>) -> spec_fn(usize, usize) -> bool {
    |a: usize, c: usize| text_behind(libs[a as int].id, libs[c as int].id)
}

// ---------------------------------------------------------------- adding

fn next2(u: &mut UuidGen, a: &str, b: &str) -> (r: String)
    ensures
        r@ == old(u)@.next_id(key_of(seq![a@, b@])),
        final(u)@ == old(u)@.after(key_of(seq![a@, b@])),
{
    let parts: Vec<&str> = vec![a, b];
    proof {
        assert(texts(parts@) =~= seq![a@, b@]);
    }
    u.next(parts.as_slice())
}

fn next3(u: &mut UuidGen, a: &str, b: &str, c: &str) -> (r: String)
    ensures
        r@ == old(u)@.next_id(key_of(seq![a@, b@, c@])),
        final(u)@ == old(u)@.after(key_of(seq![a@, b@, c@])),
{
    let parts: Vec<&str> = vec![a, b, c];
    proof {
        assert(texts(parts@) =~= seq![a@, b@, c@]);
    }
    u.next(parts.as_slice())
}

fn offset_point(p: Point, dx: i64, dy: i64) -> (r: Point)
    requires
        -0x1_0000_0000 <= dx <= 0x1_0000_0000,
        -0x1_0000_0000 <= dy <= 0x1_0000_0000,
    ensures
        r == moved_by(p, dx as int, dy as int),
{
    Point { x: to_iu(p.x as i64 + dx), y: to_iu(p.y as i64 + dy) }
}

fn push_uses(items: &mut Vec<Sexpr>, dnp: bool)
    ensures
        trees(final(items)@) == trees(old(items)@) + v_uses(dnp),
{
    let ghost before = trees(items@);
    push_tree(items, node1("exclude_from_sim", sym("no")));
    push_tree(items, node1("in_bom", sym("yes")));
    push_tree(items, node1("on_board", sym("yes")));
    push_tree(
        items,
        node1(
            "dnp",
            sym(
                if dnp {
                    "yes"
                } else {
                    "no"
                },
            ),
        ),
    );
    proof {
        assert(trees(items@) =~= before + v_uses(dnp));
    }
}

fn push_field(items: &mut Vec<Sexpr>, name: &str, value: Option<&str>, at: Point)
    ensures
        trees(final(items)@) == trees(old(items)@) + v_field(name@, opt_text(value), at),
{
    let ghost before = trees(items@);
    match value {
        Some(v) => {
            push_tree(items, plain_property(name, v, at, true));
            proof {
                assert(trees(items@) =~= before + v_field(name@, opt_text(value), at));
            }
        },
        None => {
            proof {
                assert(before =~= before + v_field(name@, opt_text(value), at));
            }
        },
    }
}

fn push_mirror(items: &mut Vec<Sexpr>, mirror: Option<MirrorAxis>)
    ensures
        trees(final(items)@) == trees(old(items)@) + v_mirror(mirror),
{
    let ghost before = trees(items@);
    match mirror {
        Some(MirrorAxis::X) => push_tree(items, node1("mirror", sym("x"))),
        Some(MirrorAxis::Y) => push_tree(items, node1("mirror", sym("y"))),
        None => {},
    }
    proof {
        assert(trees(items@) =~= before + v_mirror(mirror));
    }
}

fn to_two_digits(n: u128) -> (r: Vec<char>)
    ensures
        r@ == two_digits(n as nat),
{
    let mut v: Vec<char> = Vec::new();
    if n < 10 {
        v.push('0');
    }
    append_chars(&mut v, &to_decimal(n));
    proof {
        assert(v@ =~= two_digits(n as nat));
    }
    v
}

fn numbered(prefix: &str, offset: u64, count: usize) -> (r: String)
    ensures
        r@ == prefix@ + two_digits((offset + count + 1) as nat),
{
    let mut v: Vec<char> = chars_of(prefix);
    append_chars(&mut v, &to_two_digits(offset as u128 + count as u128 + 1));
    text_of(&v)
}

fn build_symbol_head(opts: &PlaceSymbol<'_>, id: &String) -> (r: Vec<Sexpr>)
    ensures
        trees(r@) == symbol_head(opts@, id@),
{
    proof {
        reveal(symbol_head);
    }
    let angle: i32 = text_angle(opts.rotation);
    let ref_at: Point = match opts.ref_at {
        Some(p) => p,
        None => offset_point(opts.at, 25400, -12700),
    };
    let value_at: Point = match opts.value_at {
        Some(p) => p,
        None => offset_point(opts.at, 25400, 12700),
    };
    let mut items: Vec<Sexpr> = Vec::new();
    proof {
        assert(trees(items@) =~= Seq::empty());
    }
    push_tree(&mut items, node1("lib_id", sstr(opts.lib_id)));
    push_tree(&mut items, at_turned_node(opts.at, opts.rotation));
    push_mirror(&mut items, opts.mirror);
    push_tree(&mut items, node1("unit", int_node(opts.unit as i64)));
    push_uses(&mut items, opts.dnp);
    push_tree(&mut items, uuid_node(id));
    let ref_justify: Vec<&'static str> = render_justify(
        opts.ref_justify.as_slice(),
        opts.rotation,
        opts.mirror,
    );
    push_tree(
        &mut items,
        property(
            "Reference",
            opts.reference,
            ref_at,
            angle,
            ref_justify.as_slice(),
            opts.hide_ref,
        ),
    );
    let value_justify: Vec<&'static str> = render_justify(
        opts.value_justify.as_slice(),
        opts.rotation,
        opts.mirror,
    );
    push_tree(
        &mut items,
        property(
            "Value",
            opts.value,
            value_at,
            angle,
            value_justify.as_slice(),
            opts.hide_value,
        ),
    );
    push_field(&mut items, "Footprint", opts.footprint, opts.at);
    push_field(&mut items, "Datasheet", opts.datasheet, opts.at);
    push_field(&mut items, "Description", opts.description, opts.at);
    push_field(&mut items, "MPN", opts.mpn, opts.at);
    items
}

impl SheetWriter {
    /// An empty document.
    pub fn new(options: SheetWriterOptions) -> (r: SheetWriter)
        ensures
            r@ == fresh_document(options@),
    {
        let uuids: UuidGen = UuidGen::new(options.file_name.as_str());
        let r: SheetWriter = SheetWriter {
            title: options.title,
            paper: options.paper,
            generator: options.generator,
            generator_version: options.generator_version,
            project_name: options.project_name,
            is_root: options.is_root,
            instance_path_prefix: options.instance_path_prefix,
            power_ref_offset: options.power_ref_offset,
            uuids,
            libs: Vec::new(),
            power_lib_ids: PowerIds::new(),
            junctions: Vec::new(),
            no_connects: Vec::new(),
            wires: Vec::new(),
            labels: Vec::new(),
            global_labels: Vec::new(),
            hier_labels: Vec::new(),
            texts: Vec::new(),
            graphics: Vec::new(),
            symbols: Vec::new(),
            sheets: Vec::new(),
            power_refs: Vec::new(),
            flag_refs: Vec::new(),
        };
        proof {
            let v = r@;
            let w = fresh_document(options@);
            assert(v.libs =~= w.libs);
            assert(v.power_ids =~= w.power_ids);
            assert(v.junctions =~= w.junctions);
            assert(v.no_connects =~= w.no_connects);
            assert(v.wires =~= w.wires);
            assert(v.labels =~= w.labels);
            assert(v.global_labels =~= w.global_labels);
            assert(v.hier_labels =~= w.hier_labels);
            assert(v.texts =~= w.texts);
            assert(v.graphics =~= w.graphics);
            assert(v.symbols =~= w.symbols);
            assert(v.sheets =~= w.sheets);
            assert(v.power_refs =~= w.power_refs);
            assert(v.flag_refs =~= w.flag_refs);
        }
        r
    }

    /// The identifier of the sheet.
    pub fn root_uuid(&self) -> (r: String)
        ensures
            r@ == self@.uuids.root_id(),
    {
        self.uuids.root_uuid()
    }

    /// The path of the sheet among all sheets.
    pub fn path_prefix_public(&self) -> (r: String)
        ensures
            r@ == self@.path_prefix(),
    {
        match &self.instance_path_prefix {
            Some(p) => p.clone(),
            None => {
                let mut v: Vec<char> = Vec::new();
                v.push('/');
                append_chars(&mut v, &chars_of(self.uuids.root_uuid().as_str()));
                proof {
                    assert(v@ =~= seq!['/'] + self@.uuids.root_id());
                }
                text_of(&v)
            },
        }
    }

    fn find_lib(&self, lib_id: &str) -> (r: Option<usize>)
        ensures
            match r {
                Some(k) => lib_at(self@.libs, lib_id@, 0) == Some(k as int) && k < self.libs@.len(),
                None => lib_at(self@.libs, lib_id@, 0) is None,
            },
    {
        let wanted: String = lib_id.to_owned();
        let ghost libs = self@.libs;
        let mut i: usize = 0;
        while i < self.libs.len()
            invariant
                i <= self.libs@.len(),
                libs == lib_views(self.libs@),
                wanted@ == lib_id@,
                lib_at(libs, lib_id@, 0) == lib_at(libs, lib_id@, i as int),
            decreases self.libs.len() - i,
        {
            proof {
                assert(libs[i as int].id == self.libs@[i as int].id@);
            }
            if self.libs[i].id == wanted {
                return Some(i);
            }
            i = i + 1;
        }
        None
    }

    /// Is a symbol registered under this id?
    pub fn has_lib_symbol(&self, lib_id: &str) -> (r: bool)
        ensures
            r == (lib_at(self@.libs, lib_id@, 0) is Some),
    {
        self.find_lib(lib_id).is_some()
    }

    fn register(&mut self, id: &String, tree: Sexpr, pin_numbers: Vec<String>)
        ensures
            final(self)@ == (WriterView {
                libs: with_lib(
                    old(self)@.libs,
                    (LibView { id: id@, tree: tree@, pins: views(pin_numbers@) }),
                ),
                ..old(self)@
            }),
    {
        let ghost before = self@;
        if self.find_lib(id.as_str()).is_none() {
            let entry: LibEntry = LibEntry { id: id.clone(), tree, pin_numbers };
            let ghost ev = entry@;
            self.libs.push(entry);
            proof {
                assert(self@.libs =~= before.libs.push(ev));
            }
        }
    }

    /// Register a symbol; the first one under an id stays.
    pub fn add_lib_symbol(&mut self, geom: &SymbolGeom, block: &Sexpr)
        ensures
            final(self)@ == (WriterView {
                libs: with_lib(
                    old(self)@.libs,
                    (LibView {
                        id: geom.lib_id@,
                        tree: block@,
                        pins: pin_numbers(geom.pins@),
                    }),
                ),
                ..old(self)@
            }),
    {
        let mut numbers: Vec<String> = Vec::new();
        let mut n: usize = 0;
        while n < geom.pins.len()
            invariant
                n <= geom.pins.len(),
                views(numbers@) =~= pin_numbers(geom.pins@).take(n as int),
            decreases geom.pins.len() - n,
        {
            let ghost before = views(numbers@);
            numbers.push(geom.pins[n].number.show());
            n = n + 1;
            proof {
                assert(views(numbers@) =~= before.push(pin_numbers(geom.pins@)[n - 1]));
            }
        }
        proof {
            assert(views(numbers@) =~= pin_numbers(geom.pins@));
        }
        self.register(&geom.lib_id.show(), copy_tree(block), numbers);
    }

    fn instances_block(&self, kids: Vec<Sexpr>) -> (r: Sexpr)
        ensures
            r@ == self@.instances(trees(kids@)),
    {
        let mut items: Vec<Sexpr> = Vec::new();
        push_tree(&mut items, sstr(self.path_prefix_public().as_str()));
        push_trees(&mut items, kids);
        proof {
            assert(trees(items@) =~= seq![v_text(self@.path_prefix())] + trees(kids@));
        }
        node1(
            "instances",
            node2("project", sstr(self.project_name.as_str()), node("path", items)),
        )
    }

    fn symbol_block(&self, reference: &str, unit: i32) -> (r: Sexpr)
        ensures
            r@ == self@.symbol_instances(reference@, unit as int),
    {
        let kids: Vec<Sexpr> = vec![
            node1("reference", sstr(reference)),
            node1("unit", int_node(unit as i64)),
        ];
        proof {
            assert(trees(kids@) =~= seq![
                v_one("reference"@, v_text(reference@)),
                v_one("unit"@, v_int(unit as int)),
            ]);
        }
        self.instances_block(kids)
    }

    fn pin_blocks(&mut self, key: &str, lib: usize, items: &mut Vec<Sexpr>)
        requires
            lib < old(self)@.libs.len(),
        ensures
            ({
                let pins = old(self)@.libs[lib as int].pins;
                let (nodes, u) = pin_nodes(old(self)@.uuids, key@, pins, pins.len() as int);
                &&& trees(final(items)@) == trees(old(items)@) + nodes
                &&& final(self)@ == (WriterView { uuids: u, ..old(self)@ })
            }),
    {
        let ghost w = self@;
        let ghost pins = w.libs[lib as int].pins;
        let ghost before = trees(items@);
        let ghost u0 = self.uuids@;
        let count: usize = self.libs[lib].pin_numbers.len();
        let mut n: usize = 0;
        proof {
            assert(w.libs[lib as int] == self.libs@[lib as int]@);
            assert(before =~= before + pin_nodes(u0, key@, pins, 0).0);
        }
        while n < count
            invariant
                n <= count,
                lib < self.libs@.len(),
                count == self.libs@[lib as int].pin_numbers@.len(),
                pins == views(self.libs@[lib as int].pin_numbers@),
                trees(items@) == before + pin_nodes(u0, key@, pins, n as int).0,
                self@ == (WriterView { uuids: pin_nodes(u0, key@, pins, n as int).1, ..w }),
            decreases count - n,
        {
            let number: String = self.libs[lib].pin_numbers[n].clone();
            proof {
                assert(number@ == pins[n as int]);
            }
            let id: String = next3(&mut self.uuids, "pin", key, number.as_str());
            push_tree(items, node2("pin", sstr(number.as_str()), uuid_node(&id)));
            n = n + 1;
            proof {
                assert(trees(items@) =~= before + pin_nodes(u0, key@, pins, n as int).0);
            }
        }
    }

    /// Place a symbol that is registered.
    pub fn place_symbol(&mut self, opts: &PlaceSymbol<'_>) -> (r: Result<(), NotRegistered>)
        ensures
            match lib_at(old(self)@.libs, opts.lib_id@, 0) {
                Some(_) => r is Ok && final(self)@ == old(self)@.with_symbol(opts@),
                None => r matches Err(e) && e.lib_id@ == opts.lib_id@ && final(self)@ == old(
                    self,
                )@,
            },
    {
        let ghost w = self@;
        let lib: usize = match self.find_lib(opts.lib_id) {
            Some(k) => k,
            None => return Err(NotRegistered { lib_id: opts.lib_id.to_owned() }),
        };
        let id: String = next2(&mut self.uuids, "symbol", opts.uuid_key);
        let mut items: Vec<Sexpr> = build_symbol_head(opts, &id);
        self.pin_blocks(opts.uuid_key, lib, &mut items);
        let block: Sexpr = self.symbol_block(opts.reference, opts.unit);
        proof {
            let pins = w.libs[lib as int].pins;
            let k = key_of(seq!["symbol"@, opts.uuid_key@]);
            lemma_root_id_kept(w.uuids.after(k), opts.uuid_key@, pins, pins.len() as int);
            assert(block@ == w.symbol_instances(opts.reference@, opts.unit as int));
        }
        push_tree(&mut items, block);
        let ghost all = trees(items@);
        let tree: Sexpr = node("symbol", items);
        proof {
            let pins = w.libs[lib as int].pins;
            let k = key_of(seq!["symbol"@, opts.uuid_key@]);
            let nodes = pin_nodes(w.uuids.after(k), opts.uuid_key@, pins, pins.len() as int).0;
            assert(all =~= symbol_head(opts@, id@) + nodes + seq![
                w.symbol_instances(opts.reference@, opts.unit as int),
            ]);
        }
        let ghost tv = tree@;
        self.symbols.push(tree);
        proof {
            assert(self@.symbols =~= w.symbols.push(tv));
        }
        Ok(())
    }

    fn add_run(&mut self, a: Point, b: Point)
        ensures
            final(self)@ == old(self)@.with_run(a, b),
    {
        let ghost w = self@;
        let at: String = to_xy_text(a);
        let to: String = to_xy_text(b);
        let id: String = next3(&mut self.uuids, "wire", at.as_str(), to.as_str());
        push_tree(
            &mut self.wires,
            node3("wire", node2("pts", xy_node(a), xy_node(b)), stroke(), uuid_node(&id)),
        );
        proof {
            assert(self@.wires == w.with_run(a, b).wires);
        }
    }

    /// Add a wire through the points.
    pub fn add_wire(&mut self, points: &Vec<Point>)
        requires
            points@.len() >= 2,
        ensures
            final(self)@ == old(self)@.with_wire(points@, points@.len() - 1),
    {
        let ghost w = self@;
        let mut n: usize = 1;
        while n < points.len()
            invariant
                1 <= n <= points.len(),
                self@ == w.with_wire(points@, n - 1),
            decreases points.len() - n,
        {
            self.add_run(points[n - 1], points[n]);
            n = n + 1;
        }
    }

    /// Add the dot of a branch.
    pub fn add_junction(&mut self, at: Point)
        ensures
            final(self)@ == old(self)@.with_junction(at),
    {
        let key: String = to_xy_text(at);
        let id: String = next2(&mut self.uuids, "junction", key.as_str());
        push_tree(
            &mut self.junctions,
            node4(
                "junction",
                at_node(at),
                node1("diameter", int_node(0)),
                node4("color", int_node(0), int_node(0), int_node(0), int_node(0)),
                uuid_node(&id),
            ),
        );
    }

    /// Mark a pin that is left open on purpose.
    pub fn add_no_connect(&mut self, at: Point)
        ensures
            final(self)@ == old(self)@.with_no_connect(at),
    {
        let key: String = to_xy_text(at);
        let id: String = next2(&mut self.uuids, "no_connect", key.as_str());
        push_tree(&mut self.no_connects, node2("no_connect", at_node(at), uuid_node(&id)));
    }

    /// Add a label that joins a net on its sheet.
    pub fn add_net_label(&mut self, name: &str, at: Point, rotation: i32)
        ensures
            final(self)@ == old(self)@.with_net_label(name@, at, rotation as int),
    {
        let key: String = to_xy_text(at);
        let id: String = next3(&mut self.uuids, "label", name, key.as_str());
        let justify: Vec<&'static str> = label_justify(rotation);
        push_tree(
            &mut self.labels,
            node4(
                "label",
                sstr(name),
                at_turned_node(at, rotation),
                effects(justify.as_slice(), false),
                uuid_node(&id),
            ),
        );
    }

    /// Add a label that joins a net on all sheets.
    pub fn add_global_label(
        &mut self,
        name: &str,
        at: Point,
        rotation: i32,
        direction: PortDirection,
    )
        ensures
            final(self)@ == old(self)@.with_global_label(name@, at, rotation as int, direction),
    {
        let key: String = to_xy_text(at);
        let id: String = next3(&mut self.uuids, "global_label", name, key.as_str());
        let justify: Vec<&'static str> = flag_label_justify(rotation);
        push_tree(
            &mut self.global_labels,
            node5(
                "global_label",
                sstr(name),
                node1("shape", sym(direction.shape())),
                at_turned_node(at, rotation),
                effects(justify.as_slice(), false),
                uuid_node(&id),
            ),
        );
    }

    /// Add a label that joins a net to the pin of the sheet's block.
    pub fn add_hier_label(
        &mut self,
        name: &str,
        direction: PortDirection,
        at: Point,
        rotation: i32,
    )
        ensures
            final(self)@ == old(self)@.with_hier_label(name@, direction, at, rotation as int),
    {
        let key: String = to_xy_text(at);
        let id: String = next3(&mut self.uuids, "hier_label", name, key.as_str());
        let justify: Vec<&'static str> = flag_label_justify(rotation);
        push_tree(
            &mut self.hier_labels,
            node5(
                "hierarchical_label",
                sstr(name),
                node1("shape", sym(direction.shape())),
                at_turned_node(at, rotation),
                effects(justify.as_slice(), false),
                uuid_node(&id),
            ),
        );
    }

    /// Add a free text.
    pub fn add_text(&mut self, text: &str, at: Point, rotation: i32)
        ensures
            final(self)@ == old(self)@.with_text(text@, at, rotation as int),
    {
        let key: String = to_xy_text(at);
        let id: String = next3(&mut self.uuids, "text", text, key.as_str());
        let none: Vec<&str> = Vec::new();
        proof {
            assert(texts(none@) =~= Seq::empty());
        }
        push_tree(
            &mut self.texts,
            node5(
                "text",
                sstr(text),
                node1("exclude_from_sim", sym("no")),
                at_turned_node(at, rotation),
                effects(none.as_slice(), false),
                uuid_node(&id),
            ),
        );
    }

    /// Add a dashed outline.
    pub fn add_zone_rect(&mut self, start: Point, end: Point)
        ensures
            final(self)@ == old(self)@.with_zone_rect(start, end),
    {
        let from: String = to_xy_text(start);
        let to: String = to_xy_text(end);
        let id: String = next3(&mut self.uuids, "zone", from.as_str(), to.as_str());
        push_tree(
            &mut self.graphics,
            node5(
                "rectangle",
                node2("start", num(start.x), num(start.y)),
                node2("end", num(end.x), num(end.y)),
                node3(
                    "stroke",
                    node1("width", num(1270)),
                    node1("type", sym("dash")),
                    node4("color", int_node(130), int_node(130), int_node(130), num(10000)),
                ),
                node1("fill", node1("type", sym("none"))),
                uuid_node(&id),
            ),
        );
    }

    /// Add the title of an outline.
    pub fn add_zone_title(&mut self, text: &str, at: Point)
        ensures
            final(self)@ == old(self)@.with_zone_title(text@, at),
    {
        let key: String = to_xy_text(at);
        let id: String = next3(&mut self.uuids, "ztitle", text, key.as_str());
        let corner: Vec<&str> = vec!["left", "bottom"];
        proof {
            assert(texts(corner@) =~= seq!["left"@, "bottom"@]);
        }
        push_tree(
            &mut self.texts,
            node5(
                "text",
                sstr(text),
                node1("exclude_from_sim", sym("no")),
                at_turned_node(at, 0),
                effects(corner.as_slice(), false),
                uuid_node(&id),
            ),
        );
    }

    /// The library id of the symbol of a rail: the same for every call with the same rail, another
    /// one for another rail, and named after the rail.
    pub fn power_lib_id(&mut self, net_name: &str) -> (r: String)
        ensures
            r@ == power_id_of(old(self)@.power_ids, net_name@),
            final(self)@ == (WriterView {
                power_ids: power_ids_after(old(self)@.power_ids, net_name@),
                ..old(self)@
            }),
            power_ids_sound(old(self)@.power_ids),
            power_ids_sound(final(self)@.power_ids),
            old(self)@.power_ids.is_prefix_of(final(self)@.power_ids),
            final(self)@.power_ids.contains((net_name@, r@)),
            forall|i: int|
                0 <= i < old(self)@.power_ids.len() ==> ((#[trigger] old(self)@.power_ids[i]).1
                    == r@) == (old(self)@.power_ids[i].0 == net_name@),
            power_id_base(net_name@).is_prefix_of(r@),
    {
        proof {
            use_type_invariant(&self.power_lib_ids);
            law_power_ids_stay_sound(self@.power_ids, net_name@);
            let now = power_ids_after(self@.power_ids, net_name@);
            let id = power_id_of(self@.power_ids, net_name@);
            let k = choose|k: int| 0 <= k < now.len() && now[k] == (net_name@, id);
            assert(now[k].0 == net_name@);
            let ids = self@.power_ids;
            assert forall|i: int| 0 <= i < ids.len() implies ((#[trigger] ids[i]).1 == id) == (
            ids[i].0 == net_name@) by {
                assert(now[i] == now.subrange(0, ids.len() as int)[i]);
                if i < k {
                    assert(now[i].0 != now[k].0 && now[i].1 != now[k].1);
                } else if k < i {
                    assert(now[k].0 != now[i].0 && now[k].1 != now[i].1);
                }
            }
        }
        match self.power_lib_ids.find(net_name) {
            Some(id) => id,
            None => {
                let id: String = self.power_lib_ids.new_id(net_name);
                let mut ids: PowerIds = PowerIds::new();
                std::mem::swap(&mut ids, &mut self.power_lib_ids);
                self.power_lib_ids = ids.with(net_name, &id);
                id
            },
        }
    }

    fn add_mark(
        &mut self,
        lib_id: &str,
        at: Point,
        rotation: i32,
        reference: &str,
        ref_at: Point,
        value: &str,
        value_at: Point,
        hide_value: bool,
    )
        ensures
            final(self)@ == (WriterView {
                uuids: old(self)@.uuids_after_mark(reference@),
                symbols: old(self)@.symbols.push(
                    old(self)@.mark_node(
                        lib_id@,
                        at,
                        rotation as int,
                        reference@,
                        ref_at,
                        value@,
                        value_at,
                        hide_value,
                    ),
                ),
                ..old(self)@
            }),
    {
        let ghost w = self@;
        let id: String = next2(&mut self.uuids, "symbol", reference);
        let pin_id: String = next3(&mut self.uuids, "pin", reference, "1");
        let mut items: Vec<Sexpr> = Vec::new();
        proof {
            assert(trees(items@) =~= Seq::empty());
        }
        push_tree(&mut items, node1("lib_id", sstr(lib_id)));
        push_tree(&mut items, at_turned_node(at, rotation));
        push_tree(&mut items, node1("unit", int_node(1)));
        push_uses(&mut items, false);
        push_tree(&mut items, uuid_node(&id));
        push_tree(&mut items, plain_property("Reference", reference, ref_at, true));
        push_tree(&mut items, plain_property("Value", value, value_at, hide_value));
        push_tree(&mut items, node2("pin", sstr("1"), uuid_node(&pin_id)));
        let block: Sexpr = self.symbol_block(reference, 1);
        proof {
            assert(block@ == w.symbol_instances(reference@, 1));
        }
        push_tree(&mut items, block);
        push_tree(&mut self.symbols, node("symbol", items));
    }

    /// Add the symbol of a rail; its reference. The name of the rail is its value, and makes the
    /// net.
    pub fn add_power_symbol(&mut self, net_name: &str, at: Point, down: bool) -> (r: String)
        ensures
            r@ == old(self)@.next_power_ref(),
            final(self)@ == old(self)@.with_power_symbol(net_name@, at, down),
    {
        let ghost w = self@;
        let lib_id: String = self.power_lib_id(net_name);
        let ghost w1 = self@;
        let one: Vec<String> = vec!["1".to_owned()];
        proof {
            assert(views(one@) =~= seq!["1"@]);
        }
        self.register(&lib_id, build_power_lib_symbol(lib_id.as_str(), net_name, down), one);
        let ghost w2 = self@;
        let reference: String = numbered(
            "#PWR",
            self.power_ref_offset,
            self.power_refs.len(),
        );
        proof {
            assert(reference@ == w.next_power_ref());
        }
        let (value_at, ref_at): (Point, Point) = if down {
            (offset_point(at, 0, 38100), offset_point(at, 0, 63500))
        } else {
            (offset_point(at, 0, -35560), offset_point(at, 0, -63500))
        };
        self.add_mark(
            lib_id.as_str(),
            at,
            0,
            reference.as_str(),
            ref_at,
            net_name,
            value_at,
            false,
        );
        let ghost w3 = self@;
        self.power_refs.push(reference.clone());
        proof {
            assert(self@.power_refs =~= w.power_refs.push(reference@));
            assert(w2.mark_node(
                lib_id@,
                at,
                0,
                reference@,
                ref_at,
                net_name@,
                value_at,
                false,
            ) == w.mark_node(lib_id@, at, 0, reference@, ref_at, net_name@, value_at, false));
        }
        reference
    }

    /// Add a flag that declares a rail driven; its reference.
    pub fn add_pwr_flag(&mut self, at: Point, rot: i32) -> (r: String)
        ensures
            r@ == old(self)@.next_flag_ref(),
            final(self)@ == old(self)@.with_pwr_flag(at, rot as int),
    {
        let ghost w = self@;
        let lib_id: String = with_suffix(POWER_LIB_NICKNAME, ":PWR_FLAG");
        let one: Vec<String> = vec!["1".to_owned()];
        proof {
            assert(views(one@) =~= seq!["1"@]);
        }
        self.register(&lib_id, build_pwr_flag_lib_symbol(lib_id.as_str()), one);
        let ghost w2 = self@;
        let reference: String = numbered("#FLG", self.power_ref_offset, self.flag_refs.len());
        proof {
            assert(reference@ == w.next_flag_ref());
        }
        let ref_at: Point = offset_point(at, 0, -19050);
        let value_at: Point = offset_point(at, 0, -38100);
        self.add_mark(
            lib_id.as_str(),
            at,
            rot,
            reference.as_str(),
            ref_at,
            "PWR_FLAG",
            value_at,
            true,
        );
        self.flag_refs.push(reference.clone());
        proof {
            assert(self@.flag_refs =~= w.flag_refs.push(reference@));
            assert(w2.mark_node(
                lib_id@,
                at,
                rot as int,
                reference@,
                ref_at,
                "PWR_FLAG"@,
                value_at,
                true,
            ) == w.mark_node(
                lib_id@,
                at,
                rot as int,
                reference@,
                ref_at,
                "PWR_FLAG"@,
                value_at,
                true,
            ));
        }
        reference
    }

    fn sheet_pin_blocks(&mut self, o: &SheetRef, items: &mut Vec<Sexpr>)
        ensures
            ({
                let (nodes, u) = sheet_pins(old(self)@.uuids, o@, o@.pins.len() as int);
                &&& trees(final(items)@) == trees(old(items)@) + nodes
                &&& final(self)@ == (WriterView { uuids: u, ..old(self)@ })
            }),
    {
        let ghost w = self@;
        let ghost u0 = w.uuids;
        let ghost before = trees(items@);
        let mut n: usize = 0;
        proof {
            assert(before =~= before + sheet_pins(u0, o@, 0).0);
        }
        while n < o.pins.len()
            invariant
                n <= o.pins.len(),
                trees(items@) == before + sheet_pins(u0, o@, n as int).0,
                self@ == (WriterView { uuids: sheet_pins(u0, o@, n as int).1, ..w }),
            decreases o.pins.len() - n,
        {
            let p: &SheetRefPin = &o.pins[n];
            proof {
                assert(o@.pins[n as int] == (SheetPinView {
                    name: p.name@,
                    direction: p.direction,
                    at: p.at,
                }));
            }
            let rotation: i32 = infer_sheet_pin_rotation(p.at, o.at.x, o.at.y, o.size.x);
            let justify: Vec<&str> = if rotation == 0 || rotation == 90 {
                vec!["right"]
            } else {
                vec!["left"]
            };
            proof {
                assert(texts(justify@) =~= if rotation == 0 || rotation == 90 {
                    seq!["right"@]
                } else {
                    seq!["left"@]
                });
            }
            let id: String = next3(
                &mut self.uuids,
                "sheet_pin",
                o.file_name.as_str(),
                p.name.as_str(),
            );
            push_tree(
                items,
                node5(
                    "pin",
                    sstr(p.name.as_str()),
                    sym(p.direction.shape()),
                    at_turned_node(p.at, rotation),
                    effects(justify.as_slice(), false),
                    uuid_node(&id),
                ),
            );
            n = n + 1;
            proof {
                assert(trees(items@) =~= before + sheet_pins(u0, o@, n as int).0);
            }
        }
    }

    /// Add the block of a child sheet; its identifier.
    pub fn add_sheet_ref(&mut self, opts: &SheetRef) -> (r: String)
        ensures
            r@ == old(self)@.sheet_id(opts@),
            final(self)@ == old(self)@.with_sheet_ref(opts@),
    {
        let ghost w = self@;
        let id: String = next3(
            &mut self.uuids,
            "sheet",
            opts.file_name.as_str(),
            opts.title.as_str(),
        );
        let ghost w1 = self@;
        let mut items: Vec<Sexpr> = build_sheet_head(opts, &id);
        self.sheet_pin_blocks(opts, &mut items);
        let kids: Vec<Sexpr> = vec![node1("page", sstr(opts.page.as_str()))];
        proof {
            assert(trees(kids@) =~= seq![v_one("page"@, v_text(opts.page@))]);
            lemma_sheet_pins_seed(w1.uuids, opts@, opts@.pins.len() as int);
        }
        let block: Sexpr = self.instances_block(kids);
        proof {
            assert(block@ == w.instances(seq![v_one("page"@, v_text(opts.page@))]));
        }
        push_tree(&mut items, block);
        push_tree(&mut self.sheets, node("sheet", items));
        id
    }

    fn list_libs(&self) -> (r: Vec<Sexpr>)
        ensures
            trees(r@) == self@.lib_trees(),
    {
        let libs: &Vec<LibEntry> = &self.libs;
        let ghost lv = self@.libs;
        let all: Vec<usize> = indices(libs.len());
        let after = |a: usize, c: usize| -> (r: bool)
            requires
                a < libs@.len(),
                c < libs@.len(),
            ensures
                r == text_behind(libs@[a as int].id@, libs@[c as int].id@),
            { is_text_behind(&libs[a].id, &libs[c].id) };
        let ghost by_id = |a: usize, c: usize|
            text_behind(libs@[a as int].id@, libs@[c as int].id@);
        let order: Vec<usize> = sort_by(&all, after, Ghost(by_id));
        proof {
            let top = libs@.len() as int;
            lemma_sorted_items(all@, by_id, |i: usize| i < top);
            assert forall|i: int| 0 <= i < order@.len() implies #[trigger] order@[i] < top by {
                assert((|i: usize| i < top)(order@[i]));
            }
            assert forall|a: usize, c: usize| a < top && c < top implies #[trigger] by_id(a, c)
                == lib_behind(lv)(a, c) by {
                assert(lv[a as int].id == libs@[a as int].id@);
                assert(lv[c as int].id == libs@[c as int].id@);
            }
            crate::columns::lemma_sort_agrees(all@, by_id, lib_behind(lv), top);
        }
        let ghost want = self@.lib_trees();
        let mut out: Vec<Sexpr> = Vec::new();
        let mut n: usize = 0;
        proof {
            assert(trees(out@) =~= want.take(0));
        }
        while n < order.len()
            invariant
                n <= order.len(),
                below(order@, libs@.len() as int),
                lv == lib_views(libs@),
                want.len() == order@.len(),
                forall|i: int| 0 <= i < want.len() ==> #[trigger] want[i] == lv[order@[i] as int].tree,
                trees(out@) =~= want.take(n as int),
            decreases order.len() - n,
        {
            push_tree(&mut out, copy_tree(&libs[order[n]].tree));
            n = n + 1;
        }
        proof {
            assert(trees(out@) =~= want);
        }
        out
    }

    /// The whole document.
    pub fn serialize(&self) -> (r: Sexpr)
        ensures
            r@ == self@.document(),
    {
        let mut items: Vec<Sexpr> = Vec::new();
        proof {
            assert(trees(items@) =~= Seq::empty());
        }
        push_tree(&mut items, node1("version", int_node(KICAD_SCH_VERSION)));
        push_tree(&mut items, node1("generator", sstr(self.generator.as_str())));
        push_tree(&mut items, node1("generator_version", sstr(self.generator_version.as_str())));
        push_tree(&mut items, uuid_node(&self.uuids.root_uuid()));
        push_tree(&mut items, node1("paper", sstr(self.paper.as_str())));
        push_tree(
            &mut items,
            node1("title_block", node1("title", sstr(self.title.as_str()))),
        );
        push_tree(&mut items, node("lib_symbols", self.list_libs()));
        push_copies(&mut items, &self.junctions);
        push_copies(&mut items, &self.no_connects);
        push_copies(&mut items, &self.wires);
        push_copies(&mut items, &self.labels);
        push_copies(&mut items, &self.global_labels);
        push_copies(&mut items, &self.hier_labels);
        push_copies(&mut items, &self.texts);
        push_copies(&mut items, &self.graphics);
        push_copies(&mut items, &self.symbols);
        push_copies(&mut items, &self.sheets);
        if self.is_root {
            push_tree(
                &mut items,
                node1(
                    "sheet_instances",
                    node2("path", sstr("/"), node1("page", sstr("1"))),
                ),
            );
        }
        push_tree(&mut items, node1("embedded_fonts", sym("no")));
        node("kicad_sch", items)
    }
}

fn build_sheet_head(o: &SheetRef, id: &String) -> (r: Vec<Sexpr>)
    ensures
        trees(r@) == sheet_head(o@, id@),
{
    proof {
        reveal(sheet_head);
    }
    let mut items: Vec<Sexpr> = Vec::new();
    proof {
        assert(trees(items@) =~= Seq::empty());
    }
    let over: Vec<&str> = vec!["left", "bottom"];
    let under: Vec<&str> = vec!["left", "top"];
    proof {
        assert(texts(over@) =~= seq!["left"@, "bottom"@]);
        assert(texts(under@) =~= seq!["left"@, "top"@]);
    }
    push_tree(&mut items, at_node(o.at));
    push_tree(&mut items, node2("size", num(o.size.x), num(o.size.y)));
    push_uses(&mut items, false);
    push_tree(
        &mut items,
        node2("stroke", node1("width", num(1524)), node1("type", sym("solid"))),
    );
    push_tree(
        &mut items,
        node1("fill", node4("color", int_node(0), int_node(0), int_node(0), int_node(0))),
    );
    push_tree(&mut items, uuid_node(id));
    push_tree(
        &mut items,
        property(
            "Sheetname",
            o.title.as_str(),
            offset_point(o.at, 0, -7116),
            0,
            over.as_slice(),
            false,
        ),
    );
    push_tree(
        &mut items,
        property(
            "Sheetfile",
            o.file_name.as_str(),
            offset_point(o.at, 0, o.size.y as i64 + 5842),
            0,
            under.as_slice(),
            false,
        ),
    );
    items
}

proof fn lemma_sheet_pins_seed(u: UuidGenView, o: SheetRefView, n: int)
    ensures
        sheet_pins(u, o, n).1.seed == u.seed,
    decreases n,
{
    if 0 < n <= o.pins.len() {
        lemma_sheet_pins_seed(u, o, n - 1);
    }
}

/// The numbers of the pins of a symbol.
pub open spec fn pin_numbers(pins: Seq<PinGeom>) -> Seq<Seq<char>> {
    Seq::new(pins.len(), |i: int| pins[i].number@)
}

proof fn lemma_root_id_kept(u: UuidGenView, key: Seq<char>, pins: Seq<Seq<char>>, n: int)
    ensures
        pin_nodes(u, key, pins, n).1.seed == u.seed,
    decreases n,
{
    if 0 < n <= pins.len() {
        lemma_root_id_kept(u, key, pins, n - 1);
    }
}

} // verus!
