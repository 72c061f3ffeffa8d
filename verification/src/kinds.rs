//! Which part plays which role, by the words that name it.

use vstd::prelude::*;
use crate::model::{NetClass, Role, Side};
use crate::netlist::class_of;
use crate::roles::{capacitance_named, side_named, spec_role, Capacitance, OnNets};
use crate::schematic::Instance;
use crate::text::{lower, lower_char, upper, upper_char};

verus! {

// ---------------------------------------------------------------- letters

/// Capital and small letters come in pairs, and nothing else is changed.
pub proof fn law_letters_come_in_pairs(c: char)
    ensures
        'a' <= c <= 'z' ==> upper_char(c) as u32 == c as u32 - 32 && lower_char(upper_char(c)) == c,
        'A' <= c <= 'Z' ==> lower_char(c) as u32 == c as u32 + 32 && upper_char(lower_char(c)) == c,
        !('a' <= c <= 'z') ==> upper_char(c) == c,
        !('A' <= c <= 'Z') ==> lower_char(c) == c,
{
}

/// The text is the word, in letters of either case.
pub open spec fn reads(text: Seq<char>, word: Seq<char>) -> bool {
    text.len() == word.len() && forall|i: int|
        0 <= i < word.len() ==> same_letter(#[trigger] text[i], word[i])
}

/// The same letter, or a capital for the small one.
pub open spec fn same_letter(c: char, small: char) -> bool {
    c == small || ('a' <= small <= 'z' && c as u32 + 32 == small as u32)
}

/// No letter of the word is a capital.
pub open spec fn is_small(word: Seq<char>) -> bool {
    forall|i: int| 0 <= i < word.len() ==> !('A' <= #[trigger] word[i] <= 'Z')
}

/// No letter of the word is a small one.
pub open spec fn is_capital(word: Seq<char>) -> bool {
    forall|i: int| 0 <= i < word.len() ==> !('a' <= #[trigger] word[i] <= 'z')
}

proof fn lemma_reads(text: Seq<char>, word: Seq<char>)
    requires
        is_small(word),
        reads(text, word),
    ensures
        lower(text) == word,
{
    assert forall|i: int| 0 <= i < word.len() implies lower(text)[i] == word[i] by {
        assert(same_letter(text[i], word[i]));
        law_letters_come_in_pairs(text[i]);
        law_letters_come_in_pairs(word[i]);
    }
    assert(lower(text) =~= word);
}

/// The text is the word in capitals, in letters of either case.
pub open spec fn reads_capital(text: Seq<char>, word: Seq<char>) -> bool {
    text.len() == word.len() && forall|i: int|
        0 <= i < word.len() ==> same_letter(word[i], #[trigger] text[i])
}

proof fn lemma_reads_capital(text: Seq<char>, word: Seq<char>)
    requires
        is_capital(word),
        reads_capital(text, word),
    ensures
        upper(text) == word,
{
    assert forall|i: int| 0 <= i < word.len() implies upper(text)[i] == word[i] by {
        assert(same_letter(word[i], text[i]));
        law_letters_come_in_pairs(text[i]);
        law_letters_come_in_pairs(word[i]);
    }
    assert(upper(text) =~= word);
}

// ---------------------------------------------------------------- what names a part

/// The instance says nothing of its role.
pub open spec fn silent(inst: Instance) -> bool {
    inst.role is None
}

/// The type of the instance is the word.
pub open spec fn typed(inst: Instance, word: Seq<char>) -> bool {
    inst.component_type matches Some(t) && reads(t@, word)
}

/// The instance has no type, and its prefix is the word.
pub open spec fn prefixed(inst: Instance, word: Seq<char>) -> bool {
    inst.component_type is None && (inst.prefix matches Some(p) && reads_capital(p@, word))
}

/// The instance is a resistor, by its type or by its prefix.
pub open spec fn is_resistor(inst: Instance) -> bool {
    typed(inst, "resistor"@) || typed(inst, "potentiometer"@) || prefixed(inst, "R"@)
}

pub open spec fn is_capacitor(inst: Instance) -> bool {
    typed(inst, "capacitor"@) || prefixed(inst, "C"@)
}

/// The instance has two pins whatever they are for: an inductor, a diode, a fuse and the like.
pub open spec fn is_two_pin_part(inst: Instance) -> bool {
    typed(inst, "inductor"@) || typed(inst, "diode"@) || typed(inst, "ferrite"@) || typed(
        inst,
        "ferrite_bead"@,
    ) || typed(inst, "fuse"@) || typed(inst, "net_tie"@) || typed(inst, "jumper"@) || prefixed(
        inst,
        "L"@,
    ) || prefixed(inst, "D"@) || prefixed(inst, "FB"@) || prefixed(inst, "F"@) || prefixed(
        inst,
        "NT"@,
    )
}

pub open spec fn is_connector(inst: Instance) -> bool {
    typed(inst, "connector"@) || typed(inst, "header"@) || prefixed(inst, "J"@) || prefixed(
        inst,
        "P"@,
    ) || prefixed(inst, "CN"@) || prefixed(inst, "X"@)
}

pub open spec fn is_crystal(inst: Instance) -> bool {
    typed(inst, "crystal"@) || typed(inst, "resonator"@) || typed(inst, "oscillator"@) || prefixed(
        inst,
        "Y"@,
    )
}

pub open spec fn is_led(inst: Instance) -> bool {
    typed(inst, "led"@)
}

/// The instance is none of these.
pub open spec fn is_unnamed(inst: Instance) -> bool {
    inst.component_type is None && inst.prefix is None
}

proof fn lemma_type(inst: Instance, word: Seq<char>)
    requires
        is_small(word),
        typed(inst, word),
    ensures
        lower(inst.component_type->0@) == word,
{
    lemma_reads(inst.component_type->0@, word);
}

proof fn lemma_prefix(inst: Instance, word: Seq<char>)
    requires
        is_capital(word),
        prefixed(inst, word),
    ensures
        upper(inst.prefix->0@) == word,
{
    lemma_reads_capital(inst.prefix->0@, word);
}

proof fn lemma_words()
    ensures
        is_small("resistor"@) && is_small("potentiometer"@) && is_small("capacitor"@),
        is_small("inductor"@) && is_small("diode"@) && is_small("ferrite"@),
        is_small("ferrite_bead"@) && is_small("fuse"@) && is_small("net_tie"@),
        is_small("jumper"@) && is_small("led"@) && is_small("crystal"@),
        is_small("resonator"@) && is_small("oscillator"@) && is_small("connector"@),
        is_small("header"@),
        is_capital("R"@) && is_capital("C"@) && is_capital("L"@) && is_capital("D"@),
        is_capital("FB"@) && is_capital("F"@) && is_capital("NT"@) && is_capital("J"@),
        is_capital("P"@) && is_capital("CN"@) && is_capital("X"@) && is_capital("Y"@),
{
    reveal_types();
    reveal_prefixes();
}

/// What the words for types hold, so that they can be told apart.
proof fn reveal_types()
    ensures
        "resistor"@ == seq!['r', 'e', 's', 'i', 's', 't', 'o', 'r'],
        "potentiometer"@ == seq!['p', 'o', 't', 'e', 'n', 't', 'i', 'o', 'm', 'e', 't', 'e', 'r'],
        "capacitor"@ == seq!['c', 'a', 'p', 'a', 'c', 'i', 't', 'o', 'r'],
        "inductor"@ == seq!['i', 'n', 'd', 'u', 'c', 't', 'o', 'r'],
        "diode"@ == seq!['d', 'i', 'o', 'd', 'e'],
        "ferrite"@ == seq!['f', 'e', 'r', 'r', 'i', 't', 'e'],
        "ferrite_bead"@ == seq!['f', 'e', 'r', 'r', 'i', 't', 'e', '_', 'b', 'e', 'a', 'd'],
        "fuse"@ == seq!['f', 'u', 's', 'e'],
        "net_tie"@ == seq!['n', 'e', 't', '_', 't', 'i', 'e'],
        "jumper"@ == seq!['j', 'u', 'm', 'p', 'e', 'r'],
        "led"@ == seq!['l', 'e', 'd'],
        "crystal"@ == seq!['c', 'r', 'y', 's', 't', 'a', 'l'],
        "resonator"@ == seq!['r', 'e', 's', 'o', 'n', 'a', 't', 'o', 'r'],
        "oscillator"@ == seq!['o', 's', 'c', 'i', 'l', 'l', 'a', 't', 'o', 'r'],
        "connector"@ == seq!['c', 'o', 'n', 'n', 'e', 'c', 't', 'o', 'r'],
        "header"@ == seq!['h', 'e', 'a', 'd', 'e', 'r'],
{
    reveal_strlit("resistor");
    reveal_strlit("potentiometer");
    reveal_strlit("capacitor");
    reveal_strlit("inductor");
    reveal_strlit("diode");
    reveal_strlit("ferrite");
    reveal_strlit("ferrite_bead");
    reveal_strlit("fuse");
    reveal_strlit("net_tie");
    reveal_strlit("jumper");
    reveal_strlit("led");
    reveal_strlit("crystal");
    reveal_strlit("resonator");
    reveal_strlit("oscillator");
    reveal_strlit("connector");
    reveal_strlit("header");
    assert("resistor"@ =~= seq!['r', 'e', 's', 'i', 's', 't', 'o', 'r']);
    assert("potentiometer"@ =~= seq![
        'p',
        'o',
        't',
        'e',
        'n',
        't',
        'i',
        'o',
        'm',
        'e',
        't',
        'e',
        'r',
    ]);
    assert("capacitor"@ =~= seq!['c', 'a', 'p', 'a', 'c', 'i', 't', 'o', 'r']);
    assert("inductor"@ =~= seq!['i', 'n', 'd', 'u', 'c', 't', 'o', 'r']);
    assert("diode"@ =~= seq!['d', 'i', 'o', 'd', 'e']);
    assert("ferrite"@ =~= seq!['f', 'e', 'r', 'r', 'i', 't', 'e']);
    assert("ferrite_bead"@ =~= seq!['f', 'e', 'r', 'r', 'i', 't', 'e', '_', 'b', 'e', 'a', 'd']);
    assert("fuse"@ =~= seq!['f', 'u', 's', 'e']);
    assert("net_tie"@ =~= seq!['n', 'e', 't', '_', 't', 'i', 'e']);
    assert("jumper"@ =~= seq!['j', 'u', 'm', 'p', 'e', 'r']);
    assert("led"@ =~= seq!['l', 'e', 'd']);
    assert("crystal"@ =~= seq!['c', 'r', 'y', 's', 't', 'a', 'l']);
    assert("resonator"@ =~= seq!['r', 'e', 's', 'o', 'n', 'a', 't', 'o', 'r']);
    assert("oscillator"@ =~= seq!['o', 's', 'c', 'i', 'l', 'l', 'a', 't', 'o', 'r']);
    assert("connector"@ =~= seq!['c', 'o', 'n', 'n', 'e', 'c', 't', 'o', 'r']);
    assert("header"@ =~= seq!['h', 'e', 'a', 'd', 'e', 'r']);
}

proof fn reveal_prefixes()
    ensures
        "R"@ == seq!['R'],
        "C"@ == seq!['C'],
        "L"@ == seq!['L'],
        "D"@ == seq!['D'],
        "FB"@ == seq!['F', 'B'],
        "F"@ == seq!['F'],
        "NT"@ == seq!['N', 'T'],
        "J"@ == seq!['J'],
        "P"@ == seq!['P'],
        "CN"@ == seq!['C', 'N'],
        "X"@ == seq!['X'],
        "Y"@ == seq!['Y'],
{
    reveal_strlit("R");
    reveal_strlit("C");
    reveal_strlit("L");
    reveal_strlit("D");
    reveal_strlit("FB");
    reveal_strlit("F");
    reveal_strlit("NT");
    reveal_strlit("J");
    reveal_strlit("P");
    reveal_strlit("CN");
    reveal_strlit("X");
    reveal_strlit("Y");
    assert("R"@ =~= seq!['R']);
    assert("C"@ =~= seq!['C']);
    assert("L"@ =~= seq!['L']);
    assert("D"@ =~= seq!['D']);
    assert("FB"@ =~= seq!['F', 'B']);
    assert("F"@ =~= seq!['F']);
    assert("NT"@ =~= seq!['N', 'T']);
    assert("J"@ =~= seq!['J']);
    assert("P"@ =~= seq!['P']);
    assert("CN"@ =~= seq!['C', 'N']);
    assert("X"@ =~= seq!['X']);
    assert("Y"@ =~= seq!['Y']);
}

// ---------------------------------------------------------------- roles

/// The capacitance that the instance names, in its own attribute or else in its value.
pub open spec fn named_capacitance(inst: Instance) -> Option<Capacitance> {
    match (inst.capacitance, inst.value_attr) {
        (Some(t), _) => capacitance_named(t@),
        (None, Some(t)) => capacitance_named(t@),
        (None, None) => None,
    }
}

/// The capacitance reaches the limit.
pub open spec fn reaches(inst: Instance, limit: u64) -> bool {
    match named_capacitance(inst) {
        Some(c) => !c.below_zero && c.pf >= limit,
        None => limit == 0,
    }
}

/// A capacitor of two pins on rails alone stores charge for them: a large one in bulk, a small one
/// beside its load. Any other capacitor is a plain part of the signal path.
pub proof fn law_capacitors(inst: Instance, two_pin: bool, on: OnNets, limit: u64)
    requires
        silent(inst),
        is_capacitor(inst),
    ensures
        two_pin && (on.power || on.ground) && !on.signal ==> spec_role(inst, two_pin, on, limit)
            == if reaches(inst, limit) {
            Role::Bulk
        } else {
            Role::Decoupling
        },
        !(two_pin && (on.power || on.ground) && !on.signal) ==> spec_role(inst, two_pin, on, limit)
            == Role::Passive,
{
    lemma_words();
    reveal_types();
    reveal_prefixes();
    if typed(inst, "capacitor"@) {
        lemma_type(inst, "capacitor"@);
        assert(lower(inst.component_type->0@)[0] == 'c');
    } else {
        lemma_prefix(inst, "C"@);
        assert(upper(inst.prefix->0@)[0] == 'C');
    }
}

/// A resistor of two pins between a rail and a signal pulls the signal. Any other resistor is a
/// plain part of the signal path.
pub proof fn law_resistors(inst: Instance, two_pin: bool, on: OnNets, limit: u64)
    requires
        silent(inst),
        is_resistor(inst),
    ensures
        spec_role(inst, two_pin, on, limit) == if two_pin && (on.power || on.ground) && on.signal {
            Role::Pull
        } else {
            Role::Passive
        },
{
    lemma_words();
    reveal_types();
    reveal_prefixes();
    if typed(inst, "resistor"@) {
        lemma_type(inst, "resistor"@);
    } else if typed(inst, "potentiometer"@) {
        lemma_type(inst, "potentiometer"@);
    } else {
        lemma_prefix(inst, "R"@);
        assert(upper(inst.prefix->0@)[0] == 'R');
    }
}

/// The remaining parts have one role whatever they are connected to.
pub proof fn law_other_parts(inst: Instance, two_pin: bool, on: OnNets, limit: u64)
    requires
        silent(inst),
    ensures
        is_connector(inst) ==> spec_role(inst, two_pin, on, limit) == Role::Connector,
        is_crystal(inst) ==> spec_role(inst, two_pin, on, limit) == Role::Crystal,
        is_led(inst) ==> spec_role(inst, two_pin, on, limit) == Role::Led,
        is_two_pin_part(inst) ==> spec_role(inst, two_pin, on, limit) == Role::Passive,
        is_unnamed(inst) ==> spec_role(inst, two_pin, on, limit) == Role::Other,
{
    if inst.component_type is Some {
        lemma_other_types(inst, two_pin, on, limit);
    } else if inst.prefix is Some {
        lemma_other_prefixes(inst, two_pin, on, limit);
    }
}

proof fn lemma_other_types(inst: Instance, two_pin: bool, on: OnNets, limit: u64)
    requires
        silent(inst),
        inst.component_type is Some,
    ensures
        is_connector(inst) ==> spec_role(inst, two_pin, on, limit) == Role::Connector,
        is_crystal(inst) ==> spec_role(inst, two_pin, on, limit) == Role::Crystal,
        is_led(inst) ==> spec_role(inst, two_pin, on, limit) == Role::Led,
        is_two_pin_part(inst) ==> spec_role(inst, two_pin, on, limit) == Role::Passive,
{
    lemma_words();
    reveal_types();
    let t = lower(inst.component_type->0@);
    if typed(inst, "connector"@) {
        lemma_type(inst, "connector"@);
        assert(t[2] == 'n');
    }
    if typed(inst, "header"@) {
        lemma_type(inst, "header"@);
        assert(t[0] == 'h');
    }
    if typed(inst, "crystal"@) {
        lemma_type(inst, "crystal"@);
        assert(t[0] == 'c');
    }
    if typed(inst, "resonator"@) {
        lemma_type(inst, "resonator"@);
        assert(t[0] == 'r');
    }
    if typed(inst, "oscillator"@) {
        lemma_type(inst, "oscillator"@);
        assert(t[0] == 'o');
    }
    if typed(inst, "led"@) {
        lemma_type(inst, "led"@);
        assert(t[0] == 'l');
    }
    if typed(inst, "inductor"@) {
        lemma_type(inst, "inductor"@);
        assert(t[0] == 'i');
    }
    if typed(inst, "diode"@) {
        lemma_type(inst, "diode"@);
        assert(t[0] == 'd');
    }
    if typed(inst, "ferrite"@) {
        lemma_type(inst, "ferrite"@);
        assert(t[0] == 'f');
    }
    if typed(inst, "ferrite_bead"@) {
        lemma_type(inst, "ferrite_bead"@);
        assert(t[0] == 'f');
    }
    if typed(inst, "fuse"@) {
        lemma_type(inst, "fuse"@);
        assert(t[0] == 'f');
    }
    if typed(inst, "net_tie"@) {
        lemma_type(inst, "net_tie"@);
        assert(t[0] == 'n');
    }
    if typed(inst, "jumper"@) {
        lemma_type(inst, "jumper"@);
        assert(t[0] == 'j');
    }
}

proof fn lemma_other_prefixes(inst: Instance, two_pin: bool, on: OnNets, limit: u64)
    requires
        silent(inst),
        inst.component_type is None,
        inst.prefix is Some,
    ensures
        is_connector(inst) ==> spec_role(inst, two_pin, on, limit) == Role::Connector,
        is_crystal(inst) ==> spec_role(inst, two_pin, on, limit) == Role::Crystal,
        is_two_pin_part(inst) ==> spec_role(inst, two_pin, on, limit) == Role::Passive,
{
    lemma_words();
    reveal_prefixes();
    let p = upper(inst.prefix->0@);
    if prefixed(inst, "J"@) {
        lemma_prefix(inst, "J"@);
        assert(p[0] == 'J');
    }
    if prefixed(inst, "P"@) {
        lemma_prefix(inst, "P"@);
        assert(p[0] == 'P');
    }
    if prefixed(inst, "CN"@) {
        lemma_prefix(inst, "CN"@);
        assert(p[1] == 'N' && p[0] == 'C');
    }
    if prefixed(inst, "X"@) {
        lemma_prefix(inst, "X"@);
        assert(p[0] == 'X');
    }
    if prefixed(inst, "Y"@) {
        lemma_prefix(inst, "Y"@);
        assert(p[0] == 'Y');
    }
    if prefixed(inst, "L"@) {
        lemma_prefix(inst, "L"@);
        assert(p[0] == 'L');
    }
    if prefixed(inst, "D"@) {
        lemma_prefix(inst, "D"@);
        assert(p[0] == 'D');
    }
    if prefixed(inst, "FB"@) {
        lemma_prefix(inst, "FB"@);
        assert(p[0] == 'F');
    }
    if prefixed(inst, "F"@) {
        lemma_prefix(inst, "F"@);
        assert(p[0] == 'F');
    }
    if prefixed(inst, "NT"@) {
        lemma_prefix(inst, "NT"@);
        assert(p[0] == 'N');
    }
}

/// The type says the same as the prefix: a part that is named by one plays the role of the part
/// that is named by the other.
pub proof fn law_type_and_prefix_agree(
    a: Instance,
    c: Instance,
    two_pin: bool,
    on: OnNets,
    limit: u64,
)
    requires
        silent(a),
        silent(c),
        a.capacitance == c.capacitance,
        a.value_attr == c.value_attr,
        (is_capacitor(a) && is_capacitor(c)) || (is_resistor(a) && is_resistor(c)) || (is_connector(
            a,
        ) && is_connector(c)) || (is_crystal(a) && is_crystal(c)) || (is_two_pin_part(a)
            && is_two_pin_part(c)),
    ensures
        spec_role(a, two_pin, on, limit) == spec_role(c, two_pin, on, limit),
{
    if is_capacitor(a) && is_capacitor(c) {
        law_capacitors(a, two_pin, on, limit);
        law_capacitors(c, two_pin, on, limit);
    } else if is_resistor(a) && is_resistor(c) {
        law_resistors(a, two_pin, on, limit);
        law_resistors(c, two_pin, on, limit);
    } else {
        law_other_parts(a, two_pin, on, limit);
        law_other_parts(c, two_pin, on, limit);
    }
}

// ---------------------------------------------------------------- roles and sides that are named

proof fn reveal_roles()
    ensures
        "regulator"@ == seq!['r', 'e', 'g', 'u', 'l', 'a', 't', 'o', 'r'],
        "mcu"@ == seq!['m', 'c', 'u'],
        "sensor"@ == seq!['s', 'e', 'n', 's', 'o', 'r'],
        "protection"@ == seq!['p', 'r', 'o', 't', 'e', 'c', 't', 'i', 'o', 'n'],
        "decoupling"@ == seq!['d', 'e', 'c', 'o', 'u', 'p', 'l', 'i', 'n', 'g'],
        "bulk"@ == seq!['b', 'u', 'l', 'k'],
        "pull"@ == seq!['p', 'u', 'l', 'l'],
        "passive"@ == seq!['p', 'a', 's', 's', 'i', 'v', 'e'],
{
    reveal_strlit("regulator");
    assert("regulator"@ =~= seq!['r', 'e', 'g', 'u', 'l', 'a', 't', 'o', 'r']);
    reveal_strlit("mcu");
    assert("mcu"@ =~= seq!['m', 'c', 'u']);
    reveal_strlit("sensor");
    assert("sensor"@ =~= seq!['s', 'e', 'n', 's', 'o', 'r']);
    reveal_strlit("protection");
    assert("protection"@ =~= seq!['p', 'r', 'o', 't', 'e', 'c', 't', 'i', 'o', 'n']);
    reveal_strlit("decoupling");
    assert("decoupling"@ =~= seq!['d', 'e', 'c', 'o', 'u', 'p', 'l', 'i', 'n', 'g']);
    reveal_strlit("bulk");
    assert("bulk"@ =~= seq!['b', 'u', 'l', 'k']);
    reveal_strlit("pull");
    assert("pull"@ =~= seq!['p', 'u', 'l', 'l']);
    reveal_strlit("passive");
    assert("passive"@ =~= seq!['p', 'a', 's', 's', 'i', 'v', 'e']);
}

/// A role that is named is the role, whatever the part is and whatever it is connected to.
pub proof fn law_named_roles_win(inst: Instance, two_pin: bool, on: OnNets, limit: u64)
    requires
        inst.role is Some,
    ensures
        ({
            let named = inst.role->0@;
            let role = spec_role(inst, two_pin, on, limit);
            &&& reads(named, "connector"@) ==> role == Role::Connector
            &&& reads(named, "regulator"@) ==> role == Role::Regulator
            &&& reads(named, "mcu"@) ==> role == Role::Mcu
            &&& reads(named, "sensor"@) ==> role == Role::Sensor
            &&& reads(named, "protection"@) ==> role == Role::Protection
            &&& reads(named, "crystal"@) ==> role == Role::Crystal
            &&& reads(named, "led"@) ==> role == Role::Led
            &&& reads(named, "decoupling"@) ==> role == Role::Decoupling
            &&& reads(named, "bulk"@) ==> role == Role::Bulk
            &&& reads(named, "pull"@) ==> role == Role::Pull
            &&& reads(named, "passive"@) ==> role == Role::Passive
        }),
{
    reveal_types();
    reveal_roles();
    let named = inst.role->0@;
    let low = lower(named);
    if reads(named, "connector"@) {
        lemma_reads(named, "connector"@);
        assert(low[0] == 'c' && low[1] == 'o');
    }
    if reads(named, "regulator"@) {
        lemma_reads(named, "regulator"@);
        assert(low[0] == 'r' && low[1] == 'e');
    }
    if reads(named, "mcu"@) {
        lemma_reads(named, "mcu"@);
        assert(low[0] == 'm' && low[1] == 'c');
    }
    if reads(named, "sensor"@) {
        lemma_reads(named, "sensor"@);
        assert(low[0] == 's' && low[1] == 'e');
    }
    if reads(named, "protection"@) {
        lemma_reads(named, "protection"@);
        assert(low[0] == 'p' && low[1] == 'r');
    }
    if reads(named, "crystal"@) {
        lemma_reads(named, "crystal"@);
        assert(low[0] == 'c' && low[1] == 'r');
    }
    if reads(named, "led"@) {
        lemma_reads(named, "led"@);
        assert(low[0] == 'l' && low[1] == 'e');
    }
    if reads(named, "decoupling"@) {
        lemma_reads(named, "decoupling"@);
        assert(low[0] == 'd' && low[1] == 'e');
    }
    if reads(named, "bulk"@) {
        lemma_reads(named, "bulk"@);
        assert(low[0] == 'b' && low[1] == 'u');
    }
    if reads(named, "pull"@) {
        lemma_reads(named, "pull"@);
        assert(low[0] == 'p' && low[1] == 'u');
    }
    if reads(named, "passive"@) {
        lemma_reads(named, "passive"@);
        assert(low[0] == 'p' && low[1] == 'a');
    }
}

/// A side that is named is the side.
pub proof fn law_named_sides(text: Seq<char>)
    ensures
        reads(text, "above"@) ==> side_named(lower(text)) == Some(Side::Above),
        reads(text, "top"@) ==> side_named(lower(text)) == Some(Side::Above),
        reads(text, "below"@) ==> side_named(lower(text)) == Some(Side::Below),
        reads(text, "bottom"@) ==> side_named(lower(text)) == Some(Side::Below),
        reads(text, "left"@) ==> side_named(lower(text)) == Some(Side::Left),
        reads(text, "right"@) ==> side_named(lower(text)) == Some(Side::Right),
{
    reveal_strlit("above");
    assert("above"@ =~= seq!['a', 'b', 'o', 'v', 'e']);
    reveal_strlit("top");
    assert("top"@ =~= seq!['t', 'o', 'p']);
    reveal_strlit("below");
    assert("below"@ =~= seq!['b', 'e', 'l', 'o', 'w']);
    reveal_strlit("bottom");
    assert("bottom"@ =~= seq!['b', 'o', 't', 't', 'o', 'm']);
    reveal_strlit("left");
    assert("left"@ =~= seq!['l', 'e', 'f', 't']);
    reveal_strlit("right");
    assert("right"@ =~= seq!['r', 'i', 'g', 'h', 't']);
    let low = lower(text);
    if reads(text, "above"@) {
        lemma_reads(text, "above"@);
        assert(low[0] == 'a' && low[2] == 'o');
    }
    if reads(text, "top"@) {
        lemma_reads(text, "top"@);
        assert(low[0] == 't' && low[2] == 'p');
    }
    if reads(text, "below"@) {
        lemma_reads(text, "below"@);
        assert(low[0] == 'b' && low[2] == 'l');
    }
    if reads(text, "bottom"@) {
        lemma_reads(text, "bottom"@);
        assert(low[0] == 'b' && low[2] == 't');
    }
    if reads(text, "left"@) {
        lemma_reads(text, "left"@);
        assert(low[0] == 'l' && low[2] == 'f');
    }
    if reads(text, "right"@) {
        lemma_reads(text, "right"@);
        assert(low[0] == 'r' && low[2] == 'g');
    }
}

/// Pulls hang above their anchor and bulk beside it on the right; crystals stand on the left, and
/// everything else hangs below.
pub proof fn law_default_sides(role: Role)
    ensures
        role == Role::Pull ==> Side::spec_default_for(role) == Side::Above,
        role == Role::Bulk || role == Role::Protection ==> Side::spec_default_for(role)
            == Side::Right,
        role == Role::Crystal ==> Side::spec_default_for(role) == Side::Left,
        role == Role::Decoupling || role == Role::Passive || role == Role::Led || role
            == Role::Connector || role == Role::Regulator || role == Role::Mcu || role
            == Role::Sensor || role == Role::Other ==> Side::spec_default_for(role) == Side::Below,
{
}

// ---------------------------------------------------------------- in a design

/// The kind of a net tells its rails from its signals.
pub proof fn law_net_classes(kind: Seq<char>)
    ensures
        kind == "Power"@ <==> class_of(kind) == NetClass::Power,
        kind == "Ground"@ <==> class_of(kind) == NetClass::Ground,
{
    reveal_strlit("Power");
    reveal_strlit("Ground");
    assert("Power"@.len() != "Ground"@.len());
}

} // verus!
