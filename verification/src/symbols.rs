//! Library ids of embedded symbols, and symbols made from pads.

use vstd::prelude::*;
use crate::names::{fresh, fresh_name, views};
use crate::anchors::below;
use crate::nodes::{
    at_turned_node, node, node1, node2, node4, num, plain_effects, push_tree, sstr, sym,
    v_at_turned, v_node, v_num, v_one, v_plain_effects, v_text, v_word,
};
use crate::order::{
    indices, lemma_sorted_items, natural_compare, natural_order, sort_by, sorted_by, upto,
};
use crate::schematic::{
    child_order, order_children, pads, pads_of, Child, Instance, InstanceKind, Schematic,
};
use crate::sexpr::{trees, Sexpr, SexprView};
use crate::text::{
    append_chars, char_rows, chars_of, cut, exchange, exchanged, find_char, pieces,
    place_of_char, split_chars, stem, stem_of, text_of,
};
use crate::units::{sat, to_iu, to_iu_wide, Iu, Point};

verus! {

// ---------------------------------------------------------------- names

/// The first quoted text in a block.
pub open spec fn first_quoted(raw: Seq<char>) -> Option<Seq<char>> {
    match place_of_char(raw, '"', 0) {
        Some(a) => match place_of_char(raw, '"', a + 1) {
            Some(e) => Some(raw.subrange(a + 1, e)),
            None => None,
        },
        None => None,
    }
}

/// The name of a symbol block.
pub fn symbol_name_of(raw: &str) -> (r: Option<String>)
    ensures
        match r {
            Some(s) => first_quoted(raw@) == Some(s@),
            None => first_quoted(raw@) is None,
        },
{
    let s: Vec<char> = chars_of(raw);
    match find_char(&s, '"', 0) {
        Some(a) => match find_char(&s, '"', a + 1) {
            Some(e) => Some(text_of(&cut(&s, a + 1, e))),
            None => None,
        },
        None => None,
    }
}

/// The last of the first `n` parts of a path that names a symbol directory.
pub open spec fn symdir(parts: Seq<Seq<char>>, n: int) -> Option<Seq<char>>
    decreases n,
{
    if n <= 0 || n > parts.len() {
        None
    } else {
        match stem(parts[n - 1], ".kicad_symdir"@) {
            Some(s) => Some(s),
            None => symdir(parts, n - 1),
        }
    }
}

/// The library that a symbol file belongs to.
pub open spec fn nickname(path: Option<Seq<char>>) -> Seq<char> {
    match path {
        None => "zener"@,
        Some(p) => {
            let s = exchanged(p, '\\', '/');
            let parts = pieces(s, '/', s.len() as int);
            match symdir(parts, parts.len() as int) {
                Some(d) => d,
                None => match stem(parts.last(), ".kicad_sym"@) {
                    Some(f) => f,
                    None => "zener"@,
                },
            }
        },
    }
}

pub open spec fn opt_text(s: Option<&str>) -> Option<Seq<char>> {
    match s {
        Some(s) => Some(s@),
        None => None,
    }
}

/// The library that a symbol file belongs to: its directory of symbols, or its file.
pub fn lib_nickname(symbol_path: Option<&str>) -> (r: String)
    ensures
        r@ == nickname(opt_text(symbol_path)),
{
    let path: &str = match symbol_path {
        Some(p) => p,
        None => return "zener".to_owned(),
    };
    let s: Vec<char> = exchange(&chars_of(path), '\\', '/');
    let parts: Vec<Vec<char>> = split_chars(&s, '/');
    let ghost ps = char_rows(parts@);
    let mut n: usize = parts.len();
    while n > 0
        invariant
            n <= parts.len(),
            symbol_path matches Some(q) && q@ == path@,
            s@ == exchanged(path@, '\\', '/'),
            ps == char_rows(parts@),
            ps == pieces(s@, '/', s@.len() as int),
            symdir(ps, ps.len() as int) == symdir(ps, n as int),
        decreases n,
    {
        proof {
            assert(ps[n - 1] == parts@[n - 1]@);
        }
        match stem_of(&parts[n - 1], ".kicad_symdir") {
            Some(d) => return text_of(&d),
            None => {},
        }
        n = n - 1;
    }
    proof {
        assert(ps.last() == parts@[parts@.len() - 1]@);
    }
    match stem_of(&parts[parts.len() - 1], ".kicad_sym") {
        Some(f) => text_of(&f),
        None => "zener".to_owned(),
    }
}

/// The footprint name that the parts of a path from number `i` on give.
pub open spec fn footprint_in(parts: Seq<Seq<char>>, i: int) -> Option<Seq<char>>
    decreases parts.len() - i,
{
    if i < 0 || i + 1 >= parts.len() {
        None
    } else {
        match stem(parts[i], ".pretty"@) {
            Some(lib) => Some(
                lib + seq![':'] + match stem(parts[i + 1], ".kicad_mod"@) {
                    Some(name) => name,
                    None => parts[i + 1],
                },
            ),
            None => footprint_in(parts, i + 1),
        }
    }
}

/// The footprint as a library and a name, where its path says them.
pub open spec fn footprint_name(attr: Seq<char>) -> Seq<char> {
    let s = exchanged(attr, '\\', '/');
    match footprint_in(pieces(s, '/', s.len() as int), 0) {
        Some(name) => name,
        None => attr,
    }
}

/// The footprint as KiCad names it: `X:Y` for a path through `X.pretty/Y.kicad_mod`, else
/// unchanged.
pub fn kicad_footprint_name(attr: &str) -> (r: String)
    ensures
        r@ == footprint_name(attr@),
{
    let s: Vec<char> = exchange(&chars_of(attr), '\\', '/');
    let parts: Vec<Vec<char>> = split_chars(&s, '/');
    let ghost ps = char_rows(parts@);
    let mut i: usize = 0;
    while i < parts.len() - 1
        invariant
            parts@.len() > 0,
            i < parts@.len(),
            s@ == exchanged(attr@, '\\', '/'),
            ps == char_rows(parts@),
            ps == pieces(s@, '/', s@.len() as int),
            footprint_in(ps, 0) == footprint_in(ps, i as int),
        decreases parts.len() - i,
    {
        proof {
            assert(ps[i as int] == parts@[i as int]@);
            assert(ps[i + 1] == parts@[i + 1]@);
        }
        match stem_of(&parts[i], ".pretty") {
            Some(lib) => {
                let mut out: Vec<char> = lib;
                let ghost l = out@;
                out.push(':');
                match stem_of(&parts[i + 1], ".kicad_mod") {
                    Some(name) => append_chars(&mut out, &name),
                    None => append_chars(&mut out, &parts[i + 1]),
                }
                proof {
                    assert(footprint_in(ps, i as int) == Some(out@)) by {
                        assert(out@ =~= l + seq![':'] + match stem(ps[i + 1], ".kicad_mod"@) {
                            Some(name) => name,
                            None => ps[i + 1],
                        });
                    }
                }
                return text_of(&out);
            },
            None => {},
        }
        i = i + 1;
    }
    attr.to_owned()
}

/// The text with a backslash before every quote and backslash.
pub open spec fn escaped(s: Seq<char>, n: int) -> Seq<char>
    decreases n,
{
    if n <= 0 || n > s.len() {
        Seq::empty()
    } else if s[n - 1] == '\\' || s[n - 1] == '"' {
        escaped(s, n - 1).push('\\').push(s[n - 1])
    } else {
        escaped(s, n - 1).push(s[n - 1])
    }
}

/// The text with a backslash before every quote and backslash.
pub fn escape(s: &str) -> (r: String)
    ensures
        r@ == escaped(s@, s@.len() as int),
{
    let v: Vec<char> = chars_of(s);
    let mut out: Vec<char> = Vec::new();
    let mut n: usize = 0;
    while n < v.len()
        invariant
            n <= v.len(),
            v@ == s@,
            out@ == escaped(s@, n as int),
        decreases v.len() - n,
    {
        if v[n] == '\\' || v[n] == '"' {
            out.push('\\');
        }
        out.push(v[n]);
        n = n + 1;
    }
    text_of(&out)
}

// ---------------------------------------------------------------- library ids

/// A symbol block and the id that it got.
#[derive(Debug)]
pub struct KnownSymbol {
    pub content: String,
    pub id: String,
}

/// The library ids given so far.
#[derive(Debug)]
pub struct LibIdAllocator {
    pub known: Vec<KnownSymbol>,
}

/// What the allocator knows: contents and ids.
pub open spec fn known_views(v: Seq<KnownSymbol>) -> Seq<(Seq<char>, Seq<char>)> {
    Seq::new(v.len(), |i: int| (v[i].content@, v[i].id@))
}

impl View for LibIdAllocator {
    type V = Seq<(Seq<char>, Seq<char>)>;

    open spec fn view(&self) -> Seq<(Seq<char>, Seq<char>)> {
        known_views(self.known@)
    }
}

/// The id of a block that got one, looked for from `i` on.
pub open spec fn id_known(known: Seq<(Seq<char>, Seq<char>)>, content: Seq<char>, i: int) -> Option<
    Seq<char>,
>
    decreases known.len() - i,
{
    if i < 0 || i >= known.len() {
        None
    } else if known[i].0 == content {
        Some(known[i].1)
    } else {
        id_known(known, content, i + 1)
    }
}

pub open spec fn ids(known: Seq<(Seq<char>, Seq<char>)>) -> Seq<Seq<char>> {
    Seq::new(known.len(), |i: int| known[i].1)
}

/// The id that a block asks for: its name, with the library in front where it names none.
pub open spec fn wanted_id(content: Seq<char>, path: Option<Seq<char>>) -> Seq<char> {
    let name = match first_quoted(content) {
        Some(n) => n,
        None => "Symbol"@,
    };
    if place_of_char(name, ':', 0) is Some {
        name
    } else {
        nickname(path) + seq![':'] + name
    }
}

/// The id of a block: the one that it has, or a fresh one.
pub open spec fn id_given(
    known: Seq<(Seq<char>, Seq<char>)>,
    content: Seq<char>,
    path: Option<Seq<char>>,
) -> Seq<char> {
    match id_known(known, content, 0) {
        Some(id) => id,
        None => fresh(wanted_id(content, path), Seq::empty(), ids(known)),
    }
}

/// What is known once the block has its id.
pub open spec fn known_after(
    known: Seq<(Seq<char>, Seq<char>)>,
    content: Seq<char>,
    path: Option<Seq<char>>,
) -> Seq<(Seq<char>, Seq<char>)> {
    match id_known(known, content, 0) {
        Some(_) => known,
        None => known.push((content, id_given(known, content, path))),
    }
}

/// No two blocks share an id, and no block has two.
pub open spec fn ids_unique(known: Seq<(Seq<char>, Seq<char>)>) -> bool {
    forall|i: int, j: int|
        0 <= i < j < known.len() ==> (#[trigger] known[i]).0 != (#[trigger] known[j]).0
            && known[i].1 != known[j].1
}

pub proof fn lemma_id_known(known: Seq<(Seq<char>, Seq<char>)>, content: Seq<char>, i: int)
    requires
        0 <= i <= known.len(),
    ensures
        match id_known(known, content, i) {
            Some(id) => exists|k: int|
                i <= k < known.len() && #[trigger] known[k] == (content, id),
            None => forall|k: int| i <= k < known.len() ==> (#[trigger] known[k]).0 != content,
        },
    decreases known.len() - i,
{
    if i < known.len() {
        if known[i].0 == content {
            assert(known[i] == (content, known[i].1));
        } else {
            lemma_id_known(known, content, i + 1);
        }
    }
}

/// Different symbols get different ids, and a symbol that comes again gets the id that it had.
pub proof fn law_lib_ids_are_unique(
    known: Seq<(Seq<char>, Seq<char>)>,
    content: Seq<char>,
    path: Option<Seq<char>>,
)
    requires
        ids_unique(known),
    ensures
        ids_unique(known_after(known, content, path)),
        forall|again: Option<Seq<char>>| #[trigger]
            id_given(known_after(known, content, path), content, again) == id_given(
                known,
                content,
                path,
            ),
{
    lemma_id_known(known, content, 0);
    let after = known_after(known, content, path);
    if id_known(known, content, 0) is None {
        let id = id_given(known, content, path);
        crate::names::law_fresh_is_free(wanted_id(content, path), Seq::empty(), ids(known));
        assert forall|i: int| 0 <= i < known.len() implies (#[trigger] known[i]).1 != id by {
            assert(ids(known)[i] == known[i].1);
        }
        assert forall|i: int, j: int| 0 <= i < j < after.len() implies (#[trigger] after[i]).0 != (
        #[trigger] after[j]).0 && after[i].1 != after[j].1 by {
            assert(after[i] == known[i]);
            if j < known.len() {
                assert(after[j] == known[j]);
            } else {
                assert(known[i].0 != content);
            }
        }
        lemma_id_known(after, content, 0);
        let last = known.len() as int;
        assert(after[last] == (content, id));
        assert(id_known(after, content, 0) is Some) by {
            if id_known(after, content, 0) is None {
                assert(after[last].0 != content);
            }
        }
    }
}

impl LibIdAllocator {
    pub fn new() -> (r: LibIdAllocator)
        ensures
            r@ == Seq::<(Seq<char>, Seq<char>)>::empty(),
    {
        let r: LibIdAllocator = LibIdAllocator { known: Vec::new() };
        proof {
            assert(r@ =~= Seq::empty());
        }
        r
    }

    /// The library id of a symbol block: the same for the same block, different for others.
    pub fn lib_id_for(&mut self, raw: &String, symbol_path: Option<&str>) -> (r: String)
        ensures
            r@ == id_given(old(self)@, raw@, opt_text(symbol_path)),
            final(self)@ == known_after(old(self)@, raw@, opt_text(symbol_path)),
    {
        let ghost known = self@;
        let mut i: usize = 0;
        while i < self.known.len()
            invariant
                i <= self.known@.len(),
                known == self@,
                id_known(known, raw@, 0) == id_known(known, raw@, i as int),
            decreases self.known.len() - i,
        {
            if self.known[i].content == *raw {
                return self.known[i].id.clone();
            }
            i = i + 1;
        }
        let name: Vec<char> = match symbol_name_of(raw.as_str()) {
            Some(n) => chars_of(n.as_str()),
            None => chars_of("Symbol"),
        };
        let base: Vec<char> = if find_char(&name, ':', 0).is_some() {
            name
        } else {
            let mut v: Vec<char> = chars_of(lib_nickname(symbol_path).as_str());
            v.push(':');
            append_chars(&mut v, &name);
            v
        };
        proof {
            assert(base@ =~= wanted_id(raw@, opt_text(symbol_path)));
        }
        let mut taken: Vec<String> = Vec::new();
        let mut i: usize = 0;
        while i < self.known.len()
            invariant
                i <= self.known@.len(),
                known == self@,
                views(taken@) =~= ids(known).take(i as int),
            decreases self.known.len() - i,
        {
            proof {
                assert(known[i as int].1 == self.known@[i as int].id@);
            }
            let ghost before = views(taken@);
            taken.push(self.known[i].id.clone());
            proof {
                assert(views(taken@) =~= before.push(known[i as int].1));
            }
            i = i + 1;
        }
        let none: Vec<char> = Vec::new();
        proof {
            assert(views(taken@) =~= ids(known));
            assert(none@ =~= Seq::<char>::empty());
        }
        let id: String = fresh_name(&base, &none, &taken);
        self.known.push(KnownSymbol { content: raw.clone(), id: id.clone() });
        proof {
            assert(self@ =~= known.push((raw@, id@)));
        }
        id
    }
}

// ---------------------------------------------------------------- symbols made from pads

/// A pin of a box symbol.
#[derive(Debug)]
pub struct BoxPin {
    pub pad: String,
    pub signal: String,
}

/// The first `n` pads of a port.
pub open spec fn port_pins(signal: String, pads: Seq<String>, n: int) -> Seq<BoxPin>
    decreases n,
{
    if n <= 0 || n > pads.len() {
        Seq::empty()
    } else {
        port_pins(signal, pads, n - 1).push(BoxPin { pad: pads[n - 1], signal })
    }
}

/// The pads of the first `n` children of `order` that are ports.
pub open spec fn pins_along(sch: Schematic, inst: Instance, order: Seq<usize>, n: int) -> Seq<BoxPin>
    decreases n,
{
    if n <= 0 || n > order.len() {
        Seq::empty()
    } else {
        let before = pins_along(sch, inst, order, n - 1);
        let c = inst.children@[order[n - 1] as int];
        if c.instance < sch.instances@.len() && sch.instances@[c.instance as int].kind
            == InstanceKind::Port {
            let p = pads(sch.instances@[c.instance as int]);
            before + port_pins(c.name, p, p.len() as int)
        } else {
            before
        }
    }
}

pub open spec fn pad_behind(pins: Seq<BoxPin>) -> spec_fn(usize, usize) -> bool {
    |a: usize, c: usize| natural_order(pins[a as int].pad@, pins[c as int].pad@) > 0
}

/// The pins of the box of a component, in the natural order of their pads.
pub open spec fn box_pins(sch: Schematic, inst: Instance) -> Seq<BoxPin> {
    let order = child_order(inst.children@);
    let all = pins_along(sch, inst, order, order.len() as int);
    let ranked = sorted_by(upto(all.len() as int), pad_behind(all));
    Seq::new(ranked.len(), |i: int| all[ranked[i] as int])
}

/// The number of bytes that the first `n` characters take in UTF-8.
pub open spec fn utf8_len(s: Seq<char>, n: int) -> nat
    decreases n,
{
    if n <= 0 || n > s.len() {
        0
    } else {
        let u = s[n - 1] as u32;
        utf8_len(s, n - 1) + if u < 0x80 {
            1nat
        } else if u < 0x800 {
            2
        } else if u < 0x10000 {
            3
        } else {
            4
        }
    }
}

/// The length of the longest of the first `n` signal names.
pub open spec fn longest_signal(pins: Seq<BoxPin>, n: int) -> nat
    decreases n,
{
    if n <= 0 || n > pins.len() {
        0
    } else {
        let w = utf8_len(pins[n - 1].signal@, pins[n - 1].signal@.len() as int);
        let before = longest_signal(pins, n - 1);
        if w > before {
            w
        } else {
            before
        }
    }
}

/// The number of rows of a box with `n` pins: half of them on either side.
pub open spec fn box_rows(n: int) -> int {
    (n + 1) / 2
}

pub open spec fn box_half_height(n: int) -> Iu {
    sat((box_rows(n) + 1) * 12700)
}

pub open spec fn box_half_width(pins: Seq<BoxPin>) -> Iu {
    sat((longest_signal(pins, pins.len() as int) as int + 3) * 12700)
}

/// Pin number `i`: down the left side, then down the right side.
pub open spec fn v_box_pin(pins: Seq<BoxPin>, i: int) -> SexprView {
    let rows = box_rows(pins.len() as int);
    let left = i < rows;
    let row = if left {
        i
    } else {
        i - rows
    };
    let out = sat(box_half_width(pins) + 25400);
    let at = Point {
        x: if left {
            sat(-out)
        } else {
            out
        },
        y: sat((rows - 1) * 12700 - row * 25400),
    };
    v_node(
        "pin"@,
        seq![
            v_word("passive"@),
            v_word("line"@),
            v_at_turned(
                at,
                if left {
                    0
                } else {
                    180
                },
            ),
            v_one("length"@, v_num(25400)),
            v_node("name"@, seq![v_text(pins[i].signal@), v_plain_effects()]),
            v_node("number"@, seq![v_text(pins[i].pad@), v_plain_effects()]),
        ],
    )
}

pub open spec fn v_box_property(name: Seq<char>, value: Seq<char>, y: Iu) -> SexprView {
    v_node(
        "property"@,
        seq![
            v_text(name),
            v_text(value),
            v_at_turned(Point { x: 0, y }, 0),
            v_plain_effects(),
        ],
    )
}

pub open spec fn v_box_body(name: Seq<char>, w: Iu, h: Iu) -> SexprView {
    v_node(
        "symbol"@,
        seq![
            v_text(name + "_0_1"@),
            v_node(
                "rectangle"@,
                seq![
                    v_node("start"@, seq![v_num(sat(-w)), v_num(h)]),
                    v_node("end"@, seq![v_num(w), v_num(sat(-h))]),
                    v_node(
                        "stroke"@,
                        seq![
                            v_one("width"@, v_num(2540)),
                            v_one("type"@, v_word("default"@)),
                        ],
                    ),
                    v_one("fill"@, v_one("type"@, v_word("background"@))),
                ],
            ),
        ],
    )
}

/// A box with the pins on its two sides, the signal names inside and the pad numbers hidden.
pub open spec fn v_box_symbol(name: Seq<char>, pins: Seq<BoxPin>) -> SexprView {
    let h = box_half_height(pins.len() as int);
    let w = box_half_width(pins);
    let text_y = sat(h + 25400);
    v_node(
        "symbol"@,
        seq![
            v_text(name),
            v_one("pin_names"@, v_one("offset"@, v_num(10160))),
            v_one("pin_numbers"@, v_one("hide"@, v_word("yes"@))),
            v_one("exclude_from_sim"@, v_word("no"@)),
            v_one("in_bom"@, v_word("yes"@)),
            v_one("on_board"@, v_word("yes"@)),
            v_box_property("Reference"@, "U"@, text_y),
            v_box_property("Value"@, name, sat(-text_y)),
            v_box_body(name, w, h),
            v_node(
                "symbol"@,
                seq![v_text(name + "_1_1"@)] + Seq::new(
                    pins.len(),
                    |i: int| v_box_pin(pins, i),
                ),
            ),
        ],
    )
}

/// What tells one box from another: its name and its first `n` pins.
pub open spec fn box_text(name: Seq<char>, pins: Seq<BoxPin>, n: int) -> Seq<char>
    decreases n,
{
    if n <= 0 || n > pins.len() {
        "(symbol \""@ + name + seq!['"']
    } else {
        let p = pins[n - 1];
        box_text(name, pins, n - 1) + seq![' ', '"'] + escaped(p.pad@, p.pad@.len() as int) + seq![
            '"',
            ' ',
            '"',
        ] + escaped(p.signal@, p.signal@.len() as int) + seq!['"']
    }
}

pub open spec fn box_name(refdes: Seq<char>) -> Seq<char> {
    refdes + "_BOX"@
}

/// A symbol made from the pads of a component.
#[derive(Debug)]
pub struct BoxSymbol {
    /// What tells the box from others.
    pub text: String,
    pub tree: Sexpr,
}

fn width_utf8(s: &String) -> (r: u128)
    ensures
        r == utf8_len(s@, s@.len() as int),
        r <= 4 * s@.len(),
        s@.len() <= usize::MAX,
{
    let v: Vec<char> = chars_of(s.as_str());
    let mut w: u128 = 0;
    let mut n: usize = 0;
    while n < v.len()
        invariant
            n <= v.len(),
            v@ == s@,
            w == utf8_len(s@, n as int),
            w <= 4 * n,
        decreases v.len() - n,
    {
        let u: u32 = v[n] as u32;
        w = w + if u < 0x80 {
            1u128
        } else if u < 0x800 {
            2u128
        } else if u < 0x10000 {
            3u128
        } else {
            4u128
        };
        n = n + 1;
    }
    w
}

fn longest(pins: &Vec<BoxPin>) -> (r: u128)
    ensures
        r == longest_signal(pins@, pins@.len() as int),
        r <= 4 * usize::MAX,
{
    let mut top: u128 = 0;
    let mut n: usize = 0;
    while n < pins.len()
        invariant
            n <= pins.len(),
            top == longest_signal(pins@, n as int),
            top <= 4 * usize::MAX,
        decreases pins.len() - n,
    {
        let w: u128 = width_utf8(&pins[n].signal);
        if w > top {
            top = w;
        }
        n = n + 1;
    }
    top
}

fn list_box_pins(sch: &Schematic, inst: &Instance) -> (r: Vec<BoxPin>)
    ensures
        r@ == box_pins(*sch, *inst),
{
    let order: Vec<usize> = order_children(&inst.children);
    let mut all: Vec<BoxPin> = Vec::new();
    let mut n: usize = 0;
    while n < order.len()
        invariant
            n <= order.len(),
            below(order@, inst.children@.len() as int),
            all@ == pins_along(*sch, *inst, order@, n as int),
        decreases order.len() - n,
    {
        let c: &Child = &inst.children[order[n]];
        if c.instance < sch.instances.len() && sch.instances[c.instance].kind
            == InstanceKind::Port {
            let ps: Vec<String> = pads_of(&sch.instances[c.instance]);
            let ghost before = all@;
            let mut k: usize = 0;
            proof {
                assert(before =~= before + port_pins(c.name, ps@, 0));
            }
            while k < ps.len()
                invariant
                    k <= ps.len(),
                    all@ == before + port_pins(c.name, ps@, k as int),
                decreases ps.len() - k,
            {
                all.push(BoxPin { pad: ps[k].clone(), signal: c.name.clone() });
                k = k + 1;
                proof {
                    assert(all@ =~= before + port_pins(c.name, ps@, k as int));
                }
            }
        }
        n = n + 1;
    }
    let places: Vec<usize> = indices(all.len());
    let after = |a: usize, c: usize| -> (r: bool)
        requires
            a < all@.len(),
            c < all@.len(),
        ensures
            r == (natural_order(all@[a as int].pad@, all@[c as int].pad@) > 0),
        { natural_compare(all[a].pad.as_str(), all[c].pad.as_str()) > 0 };
    let ranked: Vec<usize> = sort_by(&places, after, Ghost(pad_behind(all@)));
    proof {
        lemma_sorted_items(places@, pad_behind(all@), |i: usize| i < all@.len());
        assert forall|i: int| 0 <= i < ranked@.len() implies #[trigger] ranked@[i] < all@.len() by {
            assert((|i: usize| i < all@.len())(ranked@[i]));
        }
    }
    let mut out: Vec<BoxPin> = Vec::new();
    let mut n: usize = 0;
    while n < ranked.len()
        invariant
            n <= ranked.len(),
            below(ranked@, all@.len() as int),
            all@ == pins_along(*sch, *inst, order@, order@.len() as int),
            order@ == child_order(inst.children@),
            ranked@ == sorted_by(upto(all@.len() as int), pad_behind(all@)),
            out@ =~= box_pins(*sch, *inst).take(n as int),
        decreases ranked.len() - n,
    {
        let p: &BoxPin = &all[ranked[n]];
        out.push(BoxPin { pad: p.pad.clone(), signal: p.signal.clone() });
        n = n + 1;
    }
    proof {
        assert(out@ =~= box_pins(*sch, *inst));
    }
    out
}

fn box_property(name: &str, value: &str, y: Iu) -> (r: Sexpr)
    ensures
        r@ == v_box_property(name@, value@, y),
{
    node4(
        "property",
        sstr(name),
        sstr(value),
        at_turned_node(Point { x: 0, y }, 0),
        plain_effects(),
    )
}

fn negated(v: Iu) -> (r: Iu)
    ensures
        r == sat(-v),
{
    to_iu(-(v as i64))
}

fn box_body(name: &Vec<char>, w: Iu, h: Iu) -> (r: Sexpr)
    ensures
        r@ == v_box_body(name@, w, h),
{
    let mut title: Vec<char> = Vec::new();
    append_chars(&mut title, name);
    append_chars(&mut title, &chars_of("_0_1"));
    proof {
        assert(title@ =~= name@ + "_0_1"@);
    }
    let frame: Sexpr = node4(
        "rectangle",
        node2("start", num(negated(w)), num(h)),
        node2("end", num(w), num(negated(h))),
        node2("stroke", node1("width", num(2540)), node1("type", sym("default"))),
        node1("fill", node1("type", sym("background"))),
    );
    node2("symbol", sstr(text_of(&title).as_str()), frame)
}

fn box_pin(pins: &Vec<BoxPin>, i: usize, w: Iu) -> (r: Sexpr)
    requires
        i < pins@.len(),
        w == box_half_width(pins@),
    ensures
        r@ == v_box_pin(pins@, i as int),
{
    let rows: i128 = (pins.len() as i128 + 1) / 2;
    let left: bool = (i as i128) < rows;
    let row: i128 = if left {
        i as i128
    } else {
        i as i128 - rows
    };
    let out: Iu = to_iu(w as i64 + 25400);
    let x: Iu = if left {
        negated(out)
    } else {
        out
    };
    let y: Iu = to_iu_wide((rows - 1) * 12700 - row * 25400);
    let mut items: Vec<Sexpr> = Vec::new();
    push_tree(&mut items, sym("passive"));
    push_tree(&mut items, sym("line"));
    push_tree(
        &mut items,
        at_turned_node(
            Point { x, y },
            if left {
                0
            } else {
                180
            },
        ),
    );
    push_tree(&mut items, node1("length", num(25400)));
    push_tree(&mut items, node2("name", sstr(pins[i].signal.as_str()), plain_effects()));
    push_tree(&mut items, node2("number", sstr(pins[i].pad.as_str()), plain_effects()));
    let r: Sexpr = node("pin", items);
    proof {
        assert(r@ == v_box_pin(pins@, i as int)) by {
            assert(r@->List_0 =~= v_box_pin(pins@, i as int)->List_0);
        }
    }
    r
}

fn box_tree(name: &Vec<char>, pins: &Vec<BoxPin>) -> (r: Sexpr)
    ensures
        r@ == v_box_symbol(name@, pins@),
{
    let rows: i128 = (pins.len() as i128 + 1) / 2;
    let h: Iu = to_iu_wide((rows + 1) * 12700);
    let w: Iu = to_iu_wide((longest(pins) as i128 + 3) * 12700);
    let text_y: Iu = to_iu(h as i64 + 25400);
    let title: String = text_of(name);
    let mut unit: Vec<char> = Vec::new();
    append_chars(&mut unit, name);
    append_chars(&mut unit, &chars_of("_1_1"));
    let mut drawn: Vec<Sexpr> = Vec::new();
    push_tree(&mut drawn, sstr(text_of(&unit).as_str()));
    proof {
        assert(unit@ =~= name@ + "_1_1"@);
        assert(trees(drawn@) =~= seq![v_text(name@ + "_1_1"@)] + Seq::new(
            0nat,
            |i: int| v_box_pin(pins@, i),
        ));
    }
    let mut i: usize = 0;
    while i < pins.len()
        invariant
            i <= pins.len(),
            w == box_half_width(pins@),
            trees(drawn@) =~= seq![v_text(name@ + "_1_1"@)] + Seq::new(
                i as nat,
                |i: int| v_box_pin(pins@, i),
            ),
        decreases pins.len() - i,
    {
        push_tree(&mut drawn, box_pin(pins, i, w));
        i = i + 1;
    }
    let mut items: Vec<Sexpr> = Vec::new();
    push_tree(&mut items, sstr(title.as_str()));
    push_tree(&mut items, node1("pin_names", node1("offset", num(10160))));
    push_tree(&mut items, node1("pin_numbers", node1("hide", sym("yes"))));
    push_tree(&mut items, node1("exclude_from_sim", sym("no")));
    push_tree(&mut items, node1("in_bom", sym("yes")));
    push_tree(&mut items, node1("on_board", sym("yes")));
    push_tree(&mut items, box_property("Reference", "U", text_y));
    push_tree(&mut items, box_property("Value", title.as_str(), negated(text_y)));
    push_tree(&mut items, box_body(name, w, h));
    push_tree(&mut items, node("symbol", drawn));
    let r: Sexpr = node("symbol", items);
    proof {
        assert(r@->List_0 =~= v_box_symbol(name@, pins@)->List_0);
    }
    r
}

fn text_of_box(name: &Vec<char>, pins: &Vec<BoxPin>) -> (r: String)
    ensures
        r@ == box_text(name@, pins@, pins@.len() as int).push(')'),
{
    let mut out: Vec<char> = chars_of("(symbol \"");
    append_chars(&mut out, name);
    out.push('"');
    proof {
        assert(out@ =~= box_text(name@, pins@, 0));
    }
    let mut n: usize = 0;
    while n < pins.len()
        invariant
            n <= pins.len(),
            out@ == box_text(name@, pins@, n as int),
        decreases pins.len() - n,
    {
        let p: &BoxPin = &pins[n];
        out.push(' ');
        out.push('"');
        append_chars(&mut out, &chars_of(escape(p.pad.as_str()).as_str()));
        out.push('"');
        out.push(' ');
        out.push('"');
        append_chars(&mut out, &chars_of(escape(p.signal.as_str()).as_str()));
        out.push('"');
        n = n + 1;
        proof {
            assert(out@ =~= box_text(name@, pins@, n as int));
        }
    }
    out.push(')');
    text_of(&out)
}

/// A box symbol for a component without one; none where it has no pads either.
pub fn synthesize_box_symbol(sch: &Schematic, inst: &Instance, refdes: &str) -> (r: Option<BoxSymbol>)
    ensures
        r is None <==> box_pins(*sch, *inst).len() == 0,
        r matches Some(b) ==> {
            let pins = box_pins(*sch, *inst);
            &&& b.tree@ == v_box_symbol(box_name(refdes@), pins)
            &&& b.text@ == box_text(box_name(refdes@), pins, pins.len() as int).push(')')
        },
{
    let pins: Vec<BoxPin> = list_box_pins(sch, inst);
    if pins.len() == 0 {
        return None;
    }
    let mut name: Vec<char> = chars_of(refdes);
    append_chars(&mut name, &chars_of("_BOX"));
    proof {
        assert(name@ =~= box_name(refdes@));
    }
    Some(BoxSymbol { text: text_of_box(&name, &pins), tree: box_tree(&name, &pins) })
}

} // verus!
