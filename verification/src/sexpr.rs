//! S-expression trees: symbol libraries are read from them, sheets are written as them.

use vstd::prelude::*;
use crate::text::same;
use crate::units::{sat, Iu};

verus! {

/// A node of an s-expression tree.
#[derive(Debug, PartialEq, Eq)]
pub enum Sexpr {
    List(Vec<Sexpr>),
    /// A bare word.
    Symbol(String),
    /// A quoted text.
    Str(String),
    /// A number written without a fraction.
    Int(i64),
    /// A number written with a fraction, in ten-thousandths.
    Num(Iu),
}

/// What a node is, with every text and list taken by its contents.
pub enum SexprView {
    List(Seq<SexprView>),
    Symbol(Seq<char>),
    Str(Seq<char>),
    Int(int),
    Num(int),
}

impl View for Sexpr {
    type V = SexprView;

    open spec fn view(&self) -> SexprView {
        tree(*self)
    }
}

/// The contents of a node.
pub open spec fn tree(node: Sexpr) -> SexprView
    decreases node,
{
    match node {
        Sexpr::List(items) => SexprView::List(
            Seq::new(
                items@.len(),
                |i: int|
                    if 0 <= i < items@.len() {
                        tree(items@[i])
                    } else {
                        SexprView::Int(0)
                    },
            ),
        ),
        Sexpr::Symbol(s) => SexprView::Symbol(s@),
        Sexpr::Str(s) => SexprView::Str(s@),
        Sexpr::Int(v) => SexprView::Int(v as int),
        Sexpr::Num(v) => SexprView::Num(v as int),
    }
}

/// The contents of several nodes.
pub open spec fn trees(items: Seq<Sexpr>) -> Seq<SexprView> {
    Seq::new(items.len(), |i: int| tree(items[i]))
}

pub proof fn lemma_tree_list(items: Vec<Sexpr>)
    ensures
        tree(Sexpr::List(items)) == SexprView::List(trees(items@)),
{
    assert(tree(Sexpr::List(items))->List_0 =~= trees(items@));
}

/// Is this node the bare word `word`?
pub open spec fn is_word(node: SexprView, word: Seq<char>) -> bool {
    node == SexprView::Symbol(word)
}

/// Is this node a list that starts with the bare word `key`?
pub open spec fn is_tagged(node: SexprView, key: Seq<char>) -> bool {
    match node {
        SexprView::List(items) => items.len() > 0 && is_word(items[0], key),
        _ => false,
    }
}

/// Index of the first list among `items` that starts with `key`, at or after `from`.
pub open spec fn first_tagged(items: Seq<SexprView>, key: Seq<char>, from: int) -> Option<int>
    decreases items.len() - from,
{
    if from < 0 || from >= items.len() {
        None
    } else if is_tagged(items[from], key) {
        Some(from)
    } else {
        first_tagged(items, key, from + 1)
    }
}

/// The items of the first list among `items` that starts with `key`.
pub open spec fn child(items: Seq<SexprView>, key: Seq<char>) -> Option<Seq<SexprView>> {
    match first_tagged(items, key, 0) {
        Some(i) => Some(items[i]->List_0),
        None => None,
    }
}

/// The length that a number stands for.
pub open spec fn number(node: SexprView) -> Option<Iu> {
    match node {
        SexprView::Int(v) => Some(sat(v * 10000)),
        SexprView::Num(v) => Some(sat(v)),
        _ => None,
    }
}

/// The length that the number at place `i` stands for.
pub open spec fn number_at(items: Seq<SexprView>, i: int) -> Option<Iu> {
    if 0 <= i < items.len() {
        number(items[i])
    } else {
        None
    }
}

pub fn is_sym(node: &Sexpr, word: &str) -> (r: bool)
    ensures
        r == is_word(node@, word@),
{
    match node {
        Sexpr::Symbol(s) => same(s.as_str(), word),
        _ => false,
    }
}

pub fn has_tag(node: &Sexpr, key: &str) -> (r: bool)
    ensures
        r == is_tagged(node@, key@),
{
    match node {
        Sexpr::List(items) => {
            proof {
                lemma_tree_list(*items);
            }
            items.len() > 0 && is_sym(&items[0], key)
        },
        _ => false,
    }
}

/// The first list among `items` that starts with `key`.
pub fn find_child_list<'a>(items: &'a Vec<Sexpr>, key: &str) -> (r: Option<&'a Vec<Sexpr>>)
    ensures
        match r {
            Some(l) => child(trees(items@), key@) == Some(trees(l@)),
            None => child(trees(items@), key@) is None,
        },
{
    let mut i: usize = 0;
    while i < items.len()
        invariant
            i <= items.len(),
            first_tagged(trees(items@), key@, 0) == first_tagged(trees(items@), key@, i as int),
        decreases items.len() - i,
    {
        if has_tag(&items[i], key) {
            match &items[i] {
                Sexpr::List(l) => {
                    proof {
                        lemma_tree_list(*l);
                        assert(trees(items@)[i as int] == tree(items@[i as int]));
                    }
                    return Some(l);
                },
                _ => {},
            }
        }
        i = i + 1;
    }
    None
}

/// The length of the number at place `i`.
pub fn num_at(items: &Vec<Sexpr>, i: usize) -> (r: Option<Iu>)
    ensures
        r == number_at(trees(items@), i as int),
{
    if i >= items.len() {
        return None;
    }
    match &items[i] {
        Sexpr::Int(v) => {
            let wide: i128 = *v as i128 * 10000;
            if wide > 2147483647 {
                Some(2147483647)
            } else if wide < -2147483648 {
                Some(-2147483648)
            } else {
                Some(wide as i32)
            }
        },
        Sexpr::Num(v) => Some(*v),
        _ => None,
    }
}

} // verus!
