//! What a component does in its circuit, from its attributes and its nets.

use vstd::prelude::*;
use crate::model::{Role, Side};
use crate::schematic::Instance;
use crate::text::{
    chars_of, cut, find_char, has_at, holds_at, is_text, lower, place_of_char, skip_chars,
    to_lower, to_upper, trim, trimmed, upper,
};

verus! {

// ---------------------------------------------------------------- attributes

/// The role that a name in small letters stands for.
pub open spec fn role_named(s: Seq<char>) -> Option<Role> {
    if s == "connector"@ {
        Some(Role::Connector)
    } else if s == "regulator"@ {
        Some(Role::Regulator)
    } else if s == "mcu"@ {
        Some(Role::Mcu)
    } else if s == "sensor"@ {
        Some(Role::Sensor)
    } else if s == "protection"@ {
        Some(Role::Protection)
    } else if s == "crystal"@ {
        Some(Role::Crystal)
    } else if s == "led"@ {
        Some(Role::Led)
    } else if s == "decoupling"@ {
        Some(Role::Decoupling)
    } else if s == "bulk"@ {
        Some(Role::Bulk)
    } else if s == "pull"@ {
        Some(Role::Pull)
    } else if s == "passive"@ {
        Some(Role::Passive)
    } else {
        None
    }
}

impl Role {
    /// The role that an attribute names, in letters of either case.
    pub fn from_attr(value: &str) -> (r: Option<Role>)
        ensures
            r == role_named(lower(value@)),
    {
        let s: Vec<char> = to_lower(value);
        if is_text(&s, "connector") {
            Some(Role::Connector)
        } else if is_text(&s, "regulator") {
            Some(Role::Regulator)
        } else if is_text(&s, "mcu") {
            Some(Role::Mcu)
        } else if is_text(&s, "sensor") {
            Some(Role::Sensor)
        } else if is_text(&s, "protection") {
            Some(Role::Protection)
        } else if is_text(&s, "crystal") {
            Some(Role::Crystal)
        } else if is_text(&s, "led") {
            Some(Role::Led)
        } else if is_text(&s, "decoupling") {
            Some(Role::Decoupling)
        } else if is_text(&s, "bulk") {
            Some(Role::Bulk)
        } else if is_text(&s, "pull") {
            Some(Role::Pull)
        } else if is_text(&s, "passive") {
            Some(Role::Passive)
        } else {
            None
        }
    }
}

/// The side that a name in small letters stands for.
pub open spec fn side_named(s: Seq<char>) -> Option<Side> {
    if s == "above"@ || s == "top"@ {
        Some(Side::Above)
    } else if s == "below"@ || s == "bottom"@ {
        Some(Side::Below)
    } else if s == "left"@ {
        Some(Side::Left)
    } else if s == "right"@ {
        Some(Side::Right)
    } else {
        None
    }
}

impl Side {
    /// The side that an attribute names, in letters of either case.
    pub fn from_attr(value: &str) -> (r: Option<Side>)
        ensures
            r == side_named(lower(value@)),
    {
        let s: Vec<char> = to_lower(value);
        if is_text(&s, "above") || is_text(&s, "top") {
            Some(Side::Above)
        } else if is_text(&s, "below") || is_text(&s, "bottom") {
            Some(Side::Below)
        } else if is_text(&s, "left") {
            Some(Side::Left)
        } else if is_text(&s, "right") {
            Some(Side::Right)
        } else {
            None
        }
    }
}

/// A two-pin part that may hang on a digital net only as a pull.
pub fn is_passive_like(role: Role) -> (r: bool)
    ensures
        r == role.spec_is_satellite(),
{
    match role {
        Role::Passive | Role::Decoupling | Role::Bulk | Role::Pull | Role::Led => true,
        _ => false,
    }
}

/// What a component is made of, as far as its attributes say.
#[derive(Clone, Copy, Debug, PartialEq, Eq, Structural)]
pub enum Kind {
    Resistor,
    Capacitor,
    TwoPinPassive,
    Led,
    Crystal,
    Connector,
    Other,
}

/// The kind that a type in small letters names.
pub open spec fn kind_of_type(t: Seq<char>) -> Kind {
    if t == "resistor"@ || t == "potentiometer"@ {
        Kind::Resistor
    } else if t == "capacitor"@ {
        Kind::Capacitor
    } else if t == "inductor"@ || t == "diode"@ || t == "ferrite"@ || t == "ferrite_bead"@ || t
        == "fuse"@ || t == "net_tie"@ || t == "jumper"@ {
        Kind::TwoPinPassive
    } else if t == "led"@ {
        Kind::Led
    } else if t == "crystal"@ || t == "resonator"@ || t == "oscillator"@ {
        Kind::Crystal
    } else if t == "connector"@ || t == "header"@ {
        Kind::Connector
    } else {
        Kind::Other
    }
}

/// The kind that a designator prefix in capitals names.
pub open spec fn kind_of_prefix(p: Seq<char>) -> Kind {
    if p == "R"@ {
        Kind::Resistor
    } else if p == "C"@ {
        Kind::Capacitor
    } else if p == "L"@ || p == "D"@ || p == "FB"@ || p == "F"@ || p == "NT"@ {
        Kind::TwoPinPassive
    } else if p == "J"@ || p == "P"@ || p == "CN"@ || p == "X"@ {
        Kind::Connector
    } else if p == "Y"@ {
        Kind::Crystal
    } else {
        Kind::Other
    }
}

/// The kind of a component: by its type, or by its prefix where it has no type.
pub open spec fn kind_of(inst: Instance) -> Kind {
    match inst.component_type {
        Some(t) => kind_of_type(lower(t@)),
        None => match inst.prefix {
            Some(p) => kind_of_prefix(upper(p@)),
            None => Kind::Other,
        },
    }
}

fn find_kind_of_type(t: &Vec<char>) -> (r: Kind)
    ensures
        r == kind_of_type(t@),
{
    if is_text(t, "resistor") || is_text(t, "potentiometer") {
        Kind::Resistor
    } else if is_text(t, "capacitor") {
        Kind::Capacitor
    } else if is_text(t, "inductor") || is_text(t, "diode") || is_text(t, "ferrite") || is_text(
        t,
        "ferrite_bead",
    ) || is_text(t, "fuse") || is_text(t, "net_tie") || is_text(t, "jumper") {
        Kind::TwoPinPassive
    } else if is_text(t, "led") {
        Kind::Led
    } else if is_text(t, "crystal") || is_text(t, "resonator") || is_text(t, "oscillator") {
        Kind::Crystal
    } else if is_text(t, "connector") || is_text(t, "header") {
        Kind::Connector
    } else {
        Kind::Other
    }
}

fn find_kind_of_prefix(p: &Vec<char>) -> (r: Kind)
    ensures
        r == kind_of_prefix(p@),
{
    if is_text(p, "R") {
        Kind::Resistor
    } else if is_text(p, "C") {
        Kind::Capacitor
    } else if is_text(p, "L") || is_text(p, "D") || is_text(p, "FB") || is_text(p, "F") || is_text(
        p,
        "NT",
    ) {
        Kind::TwoPinPassive
    } else if is_text(p, "J") || is_text(p, "P") || is_text(p, "CN") || is_text(p, "X") {
        Kind::Connector
    } else if is_text(p, "Y") {
        Kind::Crystal
    } else {
        Kind::Other
    }
}

/// The kind of a component: by its type, or by its prefix where it has no type.
pub fn base_kind(inst: &Instance) -> (r: Kind)
    ensures
        r == kind_of(*inst),
{
    match &inst.component_type {
        Some(t) => find_kind_of_type(&to_lower(t.as_str())),
        None => match &inst.prefix {
            Some(p) => find_kind_of_prefix(&to_upper(p.as_str())),
            None => Kind::Other,
        },
    }
}

// ---------------------------------------------------------------- capacitance

pub open spec fn is_digit(c: char) -> bool {
    48 <= c as u32 <= 57
}

/// The number of digits, dots and minus signs from place `i` on.
pub open spec fn number_end(s: Seq<char>, i: int) -> int
    decreases s.len() - i,
{
    if 0 <= i < s.len() && (is_digit(s[i]) || s[i] == '.' || s[i] == '-') {
        number_end(s, i + 1)
    } else {
        i
    }
}

pub open spec fn all_digits(s: Seq<char>) -> bool {
    forall|i: int| 0 <= i < s.len() ==> is_digit(#[trigger] s[i])
}

/// The digits before and behind the dot of a number without its sign.
pub open spec fn split_number(s: Seq<char>) -> (Seq<char>, Seq<char>) {
    match place_of_char(s, '.', 0) {
        Some(p) => (s.take(p), s.skip(p + 1)),
        None => (s, Seq::empty()),
    }
}

/// How many times ten a picofarad goes into the unit that the text starts with.
pub open spec fn unit_power(unit: Seq<char>) -> Option<nat> {
    if holds_at(unit, "pf"@, 0) {
        Some(0)
    } else if holds_at(unit, "nf"@, 0) {
        Some(3)
    } else if holds_at(unit, "uf"@, 0) || holds_at(unit, "\u{b5}f"@, 0) {
        Some(6)
    } else if holds_at(unit, "mf"@, 0) {
        Some(9)
    } else if holds_at(unit, "f"@, 0) {
        Some(12)
    } else {
        None
    }
}

/// The number that the first `n` digits stand for.
pub open spec fn digits_value(s: Seq<char>, n: int) -> nat
    decreases n,
{
    if n <= 0 || n > s.len() {
        0
    } else {
        (digits_value(s, n - 1) * 10 + (s[n - 1] as u32 - 48)) as nat
    }
}

/// The digits of a number of units, taken as picofarads and cut at the dot.
pub open spec fn in_picofarads(whole: Seq<char>, part: Seq<char>, power: nat) -> Seq<char> {
    whole + Seq::new(
        power,
        |i: int|
            if i < part.len() {
                part[i]
            } else {
                '0'
            },
    )
}

pub open spec fn is_zero(s: Seq<char>) -> bool {
    forall|i: int| 0 <= i < s.len() ==> #[trigger] s[i] == '0'
}

/// A capacitance: whether it is below zero, and its whole picofarads as far as they can be counted.
#[derive(Clone, Copy, Debug, PartialEq, Eq, Structural)]
pub struct Capacitance {
    pub below_zero: bool,
    pub pf: u64,
}

/// The capacitance that a text names: a number, then a unit from `pF` to `F`.
pub open spec fn capacitance_named(text: Seq<char>) -> Option<Capacitance> {
    let s = trimmed(text);
    let cut = number_end(s, 0);
    let unit = lower(trimmed(s.skip(cut)));
    let below = cut > 0 && s[0] == '-';
    let body = if below {
        s.subrange(1, cut)
    } else {
        s.take(cut)
    };
    let (whole, part) = split_number(body);
    if !all_digits(whole) || !all_digits(part) || whole.len() + part.len() == 0 {
        None
    } else {
        match unit_power(unit) {
            Some(power) => {
                let d = in_picofarads(whole, part, power);
                let v = digits_value(d, d.len() as int);
                Some(
                    Capacitance {
                        below_zero: below && !(is_zero(whole) && is_zero(part)),
                        pf: if v > u64::MAX {
                            u64::MAX
                        } else {
                            v as u64
                        },
                    },
                )
            },
            None => None,
        }
    }
}

fn is_all_digits(s: &Vec<char>) -> (r: bool)
    ensures
        r == all_digits(s@),
{
    let mut i: usize = 0;
    while i < s.len()
        invariant
            i <= s.len(),
            forall|k: int| 0 <= k < i ==> is_digit(#[trigger] s@[k]),
        decreases s.len() - i,
    {
        let u: u32 = s[i] as u32;
        if u < 48 || u > 57 {
            proof {
                assert(!is_digit(s@[i as int]));
            }
            return false;
        }
        i = i + 1;
    }
    true
}

fn is_all_zero(s: &Vec<char>) -> (r: bool)
    ensures
        r == is_zero(s@),
{
    let mut i: usize = 0;
    while i < s.len()
        invariant
            i <= s.len(),
            forall|k: int| 0 <= k < i ==> #[trigger] s@[k] == '0',
        decreases s.len() - i,
    {
        if s[i] != '0' {
            return false;
        }
        i = i + 1;
    }
    true
}

fn count_capped(d: &Vec<char>) -> (r: u64)
    requires
        all_digits(d@),
    ensures
        ({
            let v = digits_value(d@, d@.len() as int);
            r == if v > u64::MAX {
                u64::MAX
            } else {
                v as u64
            }
        }),
{
    let mut acc: u128 = 0;
    let mut n: usize = 0;
    while n < d.len()
        invariant
            n <= d.len(),
            all_digits(d@),
            acc <= u64::MAX,
            ({
                let v = digits_value(d@, n as int);
                acc == if v > u64::MAX {
                    u64::MAX as int
                } else {
                    v as int
                }
            }),
        decreases d.len() - n,
    {
        proof {
            assert(is_digit(d@[n as int]));
        }
        let next: u128 = acc * 10 + (d[n] as u32 - 48) as u128;
        acc = if next > u64::MAX as u128 {
            u64::MAX as u128
        } else {
            next
        };
        n = n + 1;
    }
    acc as u64
}

fn power_of_unit(unit: &Vec<char>) -> (r: Option<usize>)
    ensures
        match r {
            Some(p) => unit_power(unit@) == Some(p as nat),
            None => unit_power(unit@) is None,
        },
{
    if has_at(unit, &chars_of("pf"), 0) {
        Some(0)
    } else if has_at(unit, &chars_of("nf"), 0) {
        Some(3)
    } else if has_at(unit, &chars_of("uf"), 0) || has_at(unit, &chars_of("\u{b5}f"), 0) {
        Some(6)
    } else if has_at(unit, &chars_of("mf"), 0) {
        Some(9)
    } else if has_at(unit, &chars_of("f"), 0) {
        Some(12)
    } else {
        None
    }
}

/// The capacitance that a text names: a number, then a unit from `pF` to `F`.
pub fn parse_capacitance(text: &str) -> (r: Option<Capacitance>)
    ensures
        r == capacitance_named(text@),
{
    let s: Vec<char> = trim(&chars_of(text));
    let mut end: usize = 0;
    while end < s.len() && ((48 <= s[end] as u32 && s[end] as u32 <= 57) || s[end] == '.' || s[end]
        == '-')
        invariant
            end <= s.len(),
            number_end(s@, 0) == number_end(s@, end as int),
        decreases s.len() - end,
    {
        end = end + 1;
    }
    let rest: Vec<char> = trim(&skip_chars(&s, end));
    let unit: Vec<char> = lower_chars(&rest);
    let below: bool = end > 0 && s[0] == '-';
    let body: Vec<char> = if below {
        cut(&s, 1, end)
    } else {
        cut(&s, 0, end)
    };
    proof {
        assert(s@.subrange(0, end as int) =~= s@.take(end as int));
    }
    let (whole, part): (Vec<char>, Vec<char>) = match find_char(&body, '.', 0) {
        Some(p) => (cut(&body, 0, p), skip_chars(&body, p + 1)),
        None => (body, Vec::new()),
    };
    proof {
        let sp = split_number(
            if below {
                s@.subrange(1, end as int)
            } else {
                s@.take(end as int)
            },
        );
        assert(whole@ =~= sp.0);
        assert(part@ =~= sp.1);
    }
    if !is_all_digits(&whole) || !is_all_digits(&part) || (whole.len() == 0 && part.len() == 0) {
        return None;
    }
    let power: usize = match power_of_unit(&unit) {
        Some(p) => p,
        None => return None,
    };
    let below_zero: bool = below && !(is_all_zero(&whole) && is_all_zero(&part));
    let mut d: Vec<char> = Vec::new();
    crate::text::append_chars(&mut d, &whole);
    let ghost w = whole@;
    let mut i: usize = 0;
    while i < power
        invariant
            i <= power,
            all_digits(w),
            all_digits(part@),
            d@ =~= in_picofarads(w, part@, i as nat),
        decreases power - i,
    {
        d.push(
            if i < part.len() {
                part[i]
            } else {
                '0'
            },
        );
        i = i + 1;
    }
    proof {
        assert forall|k: int| 0 <= k < d@.len() implies is_digit(#[trigger] d@[k]) by {
            if k < w.len() {
                assert(d@[k] == w[k]);
            } else if k - w.len() < part@.len() {
                assert(d@[k] == part@[k - w.len()]);
            }
        }
    }
    Some(Capacitance { below_zero, pf: count_capped(&d) })
}

fn lower_chars(s: &Vec<char>) -> (r: Vec<char>)
    ensures
        r@ == lower(s@),
{
    to_lower(crate::text::text_of(s).as_str())
}

/// The capacitance of a component: its own attribute, or else its value.
pub open spec fn capacitance_of(inst: Instance) -> Option<Capacitance> {
    match inst.capacitance {
        Some(t) => capacitance_named(t@),
        None => match inst.value_attr {
            Some(t) => capacitance_named(t@),
            None => None,
        },
    }
}

/// The capacitance of a component: its own attribute, or else its value.
pub fn capacitance(inst: &Instance) -> (r: Option<Capacitance>)
    ensures
        r == capacitance_of(*inst),
{
    match &inst.capacitance {
        Some(t) => parse_capacitance(t.as_str()),
        None => match &inst.value_attr {
            Some(t) => parse_capacitance(t.as_str()),
            None => None,
        },
    }
}

/// The capacitance reaches the limit; one that is not named counts as none.
pub open spec fn is_bulk(inst: Instance, limit: u64) -> bool {
    match capacitance_of(inst) {
        Some(c) => !c.below_zero && c.pf >= limit,
        None => limit == 0,
    }
}

fn reaches_bulk(inst: &Instance, limit: u64) -> (r: bool)
    ensures
        r == is_bulk(*inst, limit),
{
    match capacitance(inst) {
        Some(c) => !c.below_zero && c.pf >= limit,
        None => limit == 0,
    }
}

// ---------------------------------------------------------------- roles

/// Which classes of nets a component is on.
#[derive(Clone, Copy, Debug, PartialEq, Eq, Structural)]
pub struct OnNets {
    pub power: bool,
    pub ground: bool,
    pub signal: bool,
}

pub open spec fn explicit_role(inst: Instance) -> Option<Role> {
    match inst.role {
        Some(r) => role_named(lower(r@)),
        None => None,
    }
}

/// The role of a component: the one that it names, or the one that its kind and its nets show.
pub open spec fn spec_role(inst: Instance, two_pin: bool, on: OnNets, limit: u64) -> Role {
    match explicit_role(inst) {
        Some(r) => r,
        None => {
            let rail = on.power || on.ground;
            match kind_of(inst) {
                Kind::Connector => Role::Connector,
                Kind::Crystal => Role::Crystal,
                Kind::Led => Role::Led,
                Kind::Capacitor => if two_pin && rail && !on.signal {
                    if is_bulk(inst, limit) {
                        Role::Bulk
                    } else {
                        Role::Decoupling
                    }
                } else {
                    Role::Passive
                },
                Kind::Resistor => if two_pin && rail && on.signal {
                    Role::Pull
                } else {
                    Role::Passive
                },
                Kind::TwoPinPassive => Role::Passive,
                Kind::Other => Role::Other,
            }
        },
    }
}

/// The role of a component: the one that it names, or the one that its kind and its nets show.
pub fn classify_role(inst: &Instance, two_pin: bool, on: OnNets, limit: u64) -> (r: Role)
    ensures
        r == spec_role(*inst, two_pin, on, limit),
{
    match &inst.role {
        Some(r) => match Role::from_attr(r.as_str()) {
            Some(role) => return role,
            None => {},
        },
        None => {},
    }
    let rail: bool = on.power || on.ground;
    match base_kind(inst) {
        Kind::Connector => Role::Connector,
        Kind::Crystal => Role::Crystal,
        Kind::Led => Role::Led,
        Kind::Capacitor => if two_pin && rail && !on.signal {
            if reaches_bulk(inst, limit) {
                Role::Bulk
            } else {
                Role::Decoupling
            }
        } else {
            Role::Passive
        },
        Kind::Resistor => if two_pin && rail && on.signal {
            Role::Pull
        } else {
            Role::Passive
        },
        Kind::TwoPinPassive => Role::Passive,
        Kind::Other => Role::Other,
    }
}

} // verus!
