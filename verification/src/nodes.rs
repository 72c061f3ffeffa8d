//! Building s-expression trees.

use vstd::prelude::*;
use crate::sexpr::{lemma_tree_list, tree, trees, Sexpr, SexprView};
use crate::units::{Iu, Point};

verus! {

/// A list that starts with a word.
pub open spec fn v_node(name: Seq<char>, items: Seq<SexprView>) -> SexprView {
    SexprView::List(seq![SexprView::Symbol(name)] + items)
}

pub open spec fn v_word(s: Seq<char>) -> SexprView {
    SexprView::Symbol(s)
}

pub open spec fn v_text(s: Seq<char>) -> SexprView {
    SexprView::Str(s)
}

pub open spec fn v_int(v: int) -> SexprView {
    SexprView::Int(v)
}

pub open spec fn v_num(v: Iu) -> SexprView {
    SexprView::Num(v as int)
}

/// A list of a word and one item.
pub open spec fn v_one(name: Seq<char>, a: SexprView) -> SexprView {
    v_node(name, seq![a])
}

/// A bare word.
pub fn sym(s: &str) -> (r: Sexpr)
    ensures
        r@ == v_word(s@),
{
    Sexpr::Symbol(s.to_owned())
}

/// A quoted text.
pub fn sstr(s: &str) -> (r: Sexpr)
    ensures
        r@ == v_text(s@),
{
    Sexpr::Str(s.to_owned())
}

/// A length.
pub fn num(v: Iu) -> (r: Sexpr)
    ensures
        r@ == v_num(v),
{
    Sexpr::Num(v)
}

/// A whole number.
pub fn int_node(v: i64) -> (r: Sexpr)
    ensures
        r@ == v_int(v as int),
{
    Sexpr::Int(v)
}

/// A list that starts with a word.
pub fn node(name: &str, items: Vec<Sexpr>) -> (r: Sexpr)
    ensures
        r@ == v_node(name@, trees(items@)),
{
    let mut items: Vec<Sexpr> = items;
    let mut all: Vec<Sexpr> = Vec::new();
    let ghost given = items@;
    all.push(sym(name));
    all.append(&mut items);
    proof {
        lemma_tree_list(all);
        assert(trees(all@) =~= seq![v_word(name@)] + trees(given));
    }
    Sexpr::List(all)
}

pub fn node1(name: &str, a: Sexpr) -> (r: Sexpr)
    ensures
        r@ == v_node(name@, seq![a@]),
{
    let items: Vec<Sexpr> = vec![a];
    proof {
        assert(trees(items@) =~= seq![a@]);
    }
    node(name, items)
}

pub fn node2(name: &str, a: Sexpr, b: Sexpr) -> (r: Sexpr)
    ensures
        r@ == v_node(name@, seq![a@, b@]),
{
    let items: Vec<Sexpr> = vec![a, b];
    proof {
        assert(trees(items@) =~= seq![a@, b@]);
    }
    node(name, items)
}

pub fn node3(name: &str, a: Sexpr, b: Sexpr, c: Sexpr) -> (r: Sexpr)
    ensures
        r@ == v_node(name@, seq![a@, b@, c@]),
{
    let items: Vec<Sexpr> = vec![a, b, c];
    proof {
        assert(trees(items@) =~= seq![a@, b@, c@]);
    }
    node(name, items)
}

pub fn node4(name: &str, a: Sexpr, b: Sexpr, c: Sexpr, d: Sexpr) -> (r: Sexpr)
    ensures
        r@ == v_node(name@, seq![a@, b@, c@, d@]),
{
    let items: Vec<Sexpr> = vec![a, b, c, d];
    proof {
        assert(trees(items@) =~= seq![a@, b@, c@, d@]);
    }
    node(name, items)
}

pub fn node5(name: &str, a: Sexpr, b: Sexpr, c: Sexpr, d: Sexpr, e: Sexpr) -> (r: Sexpr)
    ensures
        r@ == v_node(name@, seq![a@, b@, c@, d@, e@]),
{
    let items: Vec<Sexpr> = vec![a, b, c, d, e];
    proof {
        assert(trees(items@) =~= seq![a@, b@, c@, d@, e@]);
    }
    node(name, items)
}

/// One more item behind the others.
pub fn push_tree(items: &mut Vec<Sexpr>, x: Sexpr)
    ensures
        trees(final(items)@) == trees(old(items)@).push(x@),
{
    let ghost before = trees(items@);
    let ghost xv = x@;
    items.push(x);
    proof {
        assert(trees(items@) =~= before.push(xv));
    }
}

/// Several more items behind the others.
pub fn push_trees(items: &mut Vec<Sexpr>, more: Vec<Sexpr>)
    ensures
        trees(final(items)@) == trees(old(items)@) + trees(more@),
{
    let ghost before = items@;
    let ghost given = more@;
    let mut more: Vec<Sexpr> = more;
    items.append(&mut more);
    proof {
        assert(items@ =~= before + given);
        assert(trees(items@) =~= trees(before) + trees(given));
    }
}

/// A position.
pub open spec fn v_at(p: Point) -> SexprView {
    v_node("at"@, seq![v_num(p.x), v_num(p.y)])
}

/// A position and an angle.
pub open spec fn v_at_turned(p: Point, angle: int) -> SexprView {
    v_node("at"@, seq![v_num(p.x), v_num(p.y), v_int(angle)])
}

pub open spec fn v_xy(p: Point) -> SexprView {
    v_node("xy"@, seq![v_num(p.x), v_num(p.y)])
}

pub fn at_node(p: Point) -> (r: Sexpr)
    ensures
        r@ == v_at(p),
{
    node2("at", num(p.x), num(p.y))
}

pub fn at_turned_node(p: Point, angle: i32) -> (r: Sexpr)
    ensures
        r@ == v_at_turned(p, angle as int),
{
    node3("at", num(p.x), num(p.y), int_node(angle as i64))
}

pub fn xy_node(p: Point) -> (r: Sexpr)
    ensures
        r@ == v_xy(p),
{
    node2("xy", num(p.x), num(p.y))
}

/// A tree with the same contents.
pub fn copy_tree(s: &Sexpr) -> (r: Sexpr)
    ensures
        r@ == s@,
    decreases s,
{
    match s {
        Sexpr::List(items) => {
            let mut out: Vec<Sexpr> = Vec::new();
            let mut i: usize = 0;
            while i < items.len()
                invariant
                    i <= items.len(),
                    *s == Sexpr::List(*items),
                    trees(out@) =~= trees(items@).take(i as int),
                decreases items.len() - i,
            {
                let item: &Sexpr = &items[i];
                proof {
                    assert(s->List_0 == *items);
                    assert(decreases_to!(*s => s->List_0));
                    assert(decreases_to!(*items => items@[i as int]));
                    assert(decreases_to!(*s => items@[i as int]));
                }
                let c: Sexpr = copy_tree(item);
                push_tree(&mut out, c);
                i = i + 1;
            }
            proof {
                assert(trees(out@) =~= trees(items@));
                lemma_tree_list(out);
                lemma_tree_list(*items);
            }
            Sexpr::List(out)
        },
        Sexpr::Symbol(t) => Sexpr::Symbol(t.clone()),
        Sexpr::Str(t) => Sexpr::Str(t.clone()),
        Sexpr::Int(v) => Sexpr::Int(*v),
        Sexpr::Num(v) => Sexpr::Num(*v),
    }
}

/// Trees with the same contents, behind the others.
pub fn push_copies(items: &mut Vec<Sexpr>, more: &Vec<Sexpr>)
    ensures
        trees(final(items)@) == trees(old(items)@) + trees(more@),
{
    let ghost before = trees(items@);
    let mut i: usize = 0;
    proof {
        assert(before =~= before + trees(more@).take(0));
    }
    while i < more.len()
        invariant
            i <= more.len(),
            trees(items@) == before + trees(more@).take(i as int),
        decreases more.len() - i,
    {
        push_tree(items, copy_tree(&more[i]));
        i = i + 1;
        proof {
            assert(trees(items@) =~= before + trees(more@).take(i as int));
        }
    }
    proof {
        assert(trees(more@).take(i as int) =~= trees(more@));
    }
}

/// The usual letters.
pub open spec fn v_font() -> SexprView {
    v_one("font"@, v_node("size"@, seq![v_num(12700), v_num(12700)]))
}

pub fn font() -> (r: Sexpr)
    ensures
        r@ == v_font(),
{
    node1("font", node2("size", num(12700), num(12700)))
}

/// Text effects without any choice made.
pub open spec fn v_plain_effects() -> SexprView {
    v_one("effects"@, v_font())
}

pub fn plain_effects() -> (r: Sexpr)
    ensures
        r@ == v_plain_effects(),
{
    node1("effects", font())
}

} // verus!
