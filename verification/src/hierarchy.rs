//! What holds of every plan of sheets: unique files, a tree of sheets, and no part lost.

use vstd::prelude::*;
use vstd::multiset::Multiset;
use crate::config::SchConfig;
use crate::model::DesignModel;
use crate::names::{fresh, law_fresh_is_free};
use crate::order::includes;
use crate::schematic::Schematic;
use crate::sheets::{
    crosses, file_base, file_names, lemma_below_grows, planned, ports_of, ports_upto, site_of,
    with_ports, Branch, SheetView, Site,
};

verus! {

// ---------------------------------------------------------------- unique files

proof fn lemma_emitted_names(
    site: Site,
    i: int,
    parent: Option<usize>,
    title: Seq<char>,
    file: Seq<char>,
    sheets: Seq<SheetView>,
)
    requires
        0 <= i < site.count(),
        file_names(sheets).no_duplicates(),
        !file_names(sheets).contains(file),
    ensures
        file_names(site.emitted(i, parent, title, file, sheets)).no_duplicates(),
    decreases site.count() - i, 1nat, 0int,
{
    let idx = sheets.len() as int;
    let bare = site.bare_sheet(i, parent, title, file, idx);
    let start = sheets.push(bare);
    let names = file_names(sheets);
    assert(file_names(start) =~= names.push(file));
    assert forall|a: int, c: int|
        0 <= a < file_names(start).len() && 0 <= c < file_names(start).len() && a
            != c implies file_names(start)[a] != file_names(start)[c] by {
        if a < names.len() && c < names.len() {
            assert(names[a] != names[c]);
        } else if a < names.len() {
            assert(names.contains(names[a]));
        } else {
            assert(names.contains(names[c]));
        }
    }
    let n = site.all_branches(i).len() as int;
    lemma_below_names(site, i, idx, start, n);
    lemma_below_grows(site, i, idx, start, n);
    let all = site.emitted_below(i, idx, start, n).0;
    let r = site.emitted(i, parent, title, file, sheets);
    assert(file_names(r) =~= file_names(all));
}

proof fn lemma_below_names(site: Site, i: int, idx: int, sheets: Seq<SheetView>, k: int)
    requires
        file_names(sheets).no_duplicates(),
    ensures
        file_names(site.emitted_below(i, idx, sheets, k).0).no_duplicates(),
    decreases site.count() - i, 0nat, k,
{
    if 0 <= i < site.count() && 0 < k <= site.all_branches(i).len() {
        lemma_below_names(site, i, idx, sheets, k - 1);
        let before = site.emitted_below(i, idx, sheets, k - 1).0;
        let b = site.all_branches(i)[k - 1];
        if i < b.instance < site.count() {
            let file = fresh(file_base(b.name@), ".kicad_sch"@, file_names(before));
            law_fresh_is_free(file_base(b.name@), ".kicad_sch"@, file_names(before));
            lemma_emitted_names(
                site,
                b.instance as int,
                Some(idx as usize),
                b.name@,
                file,
                before,
            );
        }
    }
}

/// No two sheets of a plan share a file.
pub proof fn law_files_are_unique(sch: Schematic, design: DesignModel, cfg: SchConfig, project: Seq<char>)
    requires
        sch.wf(),
    ensures
        file_names(planned(sch, design, cfg, project)).no_duplicates(),
{
    reveal(planned);
    let site = site_of(sch, design, cfg);
    let none = Seq::<SheetView>::empty();
    assert(file_names(none) =~= Seq::empty());
    lemma_emitted_names(
        site,
        sch.root as int,
        None,
        project,
        project + ".kicad_sch"@,
        none,
    );
    let all = site.all_sheets(project);
    assert(file_names(with_ports(design, all)) =~= file_names(all));
}

// ---------------------------------------------------------------- a tree of sheets

/// The children of the sheet come behind it and name it as their parent, and none is listed twice.
pub open spec fn children_linked(sheets: Seq<SheetView>, s: int) -> bool {
    &&& forall|k: int|
        0 <= k < sheets[s].children.len() ==> s < #[trigger] sheets[s].children[k] < sheets.len()
            && sheets[sheets[s].children[k] as int].parent == Some(s as usize)
    &&& sheets[s].children.no_duplicates()
}

/// The sheet is a child of its parent, which is not before `from`.
pub open spec fn parent_linked(sheets: Seq<SheetView>, c: int, from: int) -> bool {
    match sheets[c].parent {
        Some(p) => from <= p < c && includes(sheets[p as int].children, c),
        None => false,
    }
}

/// The sheets from `from` on form a tree.
pub open spec fn linked(sheets: Seq<SheetView>, from: int) -> bool {
    &&& forall|s: int| from <= s < sheets.len() ==> #[trigger] children_linked(sheets, s)
    &&& forall|c: int| from < c < sheets.len() ==> #[trigger] parent_linked(sheets, c, from)
}

/// The sheets from `from` on form trees whose roots are the listed ones, with the parent `idx`.
pub open spec fn linked_below(sheets: Seq<SheetView>, kids: Seq<usize>, from: int, idx: int) -> bool {
    &&& forall|s: int| from <= s < sheets.len() ==> #[trigger] children_linked(sheets, s)
    &&& forall|k: int|
        0 <= k < kids.len() ==> from <= #[trigger] kids[k] < sheets.len()
            && sheets[kids[k] as int].parent == Some(idx as usize)
    &&& forall|c: int|
        from <= c < sheets.len() ==> #[trigger] parent_linked(sheets, c, from) || (
        sheets[c].parent == Some(idx as usize) && includes(kids, c))
    &&& kids.no_duplicates()
}

proof fn lemma_emitted_linked(
    site: Site,
    i: int,
    parent: Option<usize>,
    title: Seq<char>,
    file: Seq<char>,
    sheets: Seq<SheetView>,
)
    requires
        0 <= i < site.count(),
        site.emitted(i, parent, title, file, sheets).len() <= usize::MAX,
    ensures
        site.emitted(i, parent, title, file, sheets).len() > sheets.len(),
        forall|s: int|
            0 <= s < sheets.len() ==> #[trigger] site.emitted(i, parent, title, file, sheets)[s]
                == sheets[s],
        site.emitted(i, parent, title, file, sheets)[sheets.len() as int].parent == parent,
        linked(site.emitted(i, parent, title, file, sheets), sheets.len() as int),
    decreases site.count() - i, 1nat, 0int,
{
    let idx = sheets.len() as int;
    let bare = site.bare_sheet(i, parent, title, file, idx);
    let start = sheets.push(bare);
    let n = site.all_branches(i).len() as int;
    let (all, kids) = site.emitted_below(i, idx, start, n);
    let r = site.emitted(i, parent, title, file, sheets);
    lemma_below_grows(site, i, idx, start, n);
    assert(r.len() == all.len());
    lemma_below_linked(site, i, idx, start, n);
    assert(all[idx] == start[idx]);
    assert forall|s: int| 0 <= s < sheets.len() implies #[trigger] r[s] == sheets[s] by {
        assert(all[s] == start[s]);
    }
    assert forall|s: int| idx <= s < r.len() implies #[trigger] children_linked(r, s) by {
        if s == idx {
            assert(r[s].children == kids);
            assert forall|k: int| 0 <= k < r[s].children.len() implies s
                < #[trigger] r[s].children[k] < r.len() && r[r[s].children[k] as int].parent
                == Some(s as usize) by {
                assert(r[s].children[k] == kids[k]);
            }
        } else {
            assert(children_linked(all, s));
            assert(r[s].children == all[s].children);
            assert forall|k: int| 0 <= k < r[s].children.len() implies s
                < #[trigger] r[s].children[k] < r.len() && r[r[s].children[k] as int].parent
                == Some(s as usize) by {
                assert(r[s].children[k] == all[s].children[k]);
            }
        }
    }
    assert forall|c: int| idx < c < r.len() implies #[trigger] parent_linked(r, c, idx) by {
        if parent_linked(all, c, idx + 1) {
        } else {
            assert(includes(kids, c));
            assert(r[idx].children == kids);
        }
    }
}

proof fn lemma_below_linked(site: Site, i: int, idx: int, sheets: Seq<SheetView>, k: int)
    requires
        sheets.len() == idx + 1,
        site.emitted_below(i, idx, sheets, k).0.len() <= usize::MAX,
    ensures
        site.emitted_below(i, idx, sheets, k).0.len() >= sheets.len(),
        forall|s: int|
            0 <= s < sheets.len() ==> #[trigger] site.emitted_below(i, idx, sheets, k).0[s]
                == sheets[s],
        linked_below(
            site.emitted_below(i, idx, sheets, k).0,
            site.emitted_below(i, idx, sheets, k).1,
            idx + 1,
            idx,
        ),
    decreases site.count() - i, 0nat, k,
{
    let (now, now_kids) = site.emitted_below(i, idx, sheets, k);
    if 0 <= i < site.count() && 0 < k <= site.all_branches(i).len() {
        let (before, kids) = site.emitted_below(i, idx, sheets, k - 1);
        let b = site.all_branches(i)[k - 1];
        if i < b.instance < site.count() {
            let file = fresh(file_base(b.name@), ".kicad_sch"@, file_names(before));
            lemma_emitted_linked(
                site,
                b.instance as int,
                Some(idx as usize),
                b.name@,
                file,
                before,
            );
            let at = before.len() as int;
            lemma_below_linked(site, i, idx, sheets, k - 1);
            assert(now_kids == kids.push(at as usize));
            assert(now_kids.no_duplicates()) by {
                assert forall|a: int, c: int|
                    0 <= a < now_kids.len() && 0 <= c < now_kids.len() && a
                        != c implies now_kids[a] != now_kids[c] by {
                    if a < kids.len() && c < kids.len() {
                        assert(kids[a] != kids[c]);
                    } else if a < kids.len() {
                        assert(kids[a] < at);
                    } else {
                        assert(kids[c] < at);
                    }
                }
            }
            assert forall|s: int| 0 <= s < sheets.len() implies #[trigger] now[s] == sheets[s] by {
                assert(now[s] == before[s]);
            }
            assert forall|s: int| idx + 1 <= s < now.len() implies #[trigger] children_linked(
                now,
                s,
            ) by {
                if s < at {
                    assert(children_linked(before, s));
                    assert(now[s] == before[s]);
                    assert forall|j: int| 0 <= j < now[s].children.len() implies s
                        < #[trigger] now[s].children[j] < now.len()
                        && now[now[s].children[j] as int].parent == Some(s as usize) by {
                        let c = before[s].children[j] as int;
                        assert(now[c] == before[c]);
                    }
                }
            }
            assert forall|j: int| 0 <= j < now_kids.len() implies idx + 1
                <= #[trigger] now_kids[j] < now.len() && now[now_kids[j] as int].parent == Some(
                idx as usize,
            ) by {
                if j < kids.len() {
                    assert(now_kids[j] == kids[j]);
                    assert(now[kids[j] as int] == before[kids[j] as int]);
                }
            }
            assert forall|c: int| idx + 1 <= c < now.len() implies #[trigger] parent_linked(
                now,
                c,
                idx + 1,
            ) || (now[c].parent == Some(idx as usize) && includes(now_kids, c)) by {
                if c < at {
                    assert(now[c] == before[c]);
                    if parent_linked(before, c, idx + 1) {
                        let p = before[c].parent->0 as int;
                        assert(now[p] == before[p]);
                    } else {
                        let j = choose|j: int| 0 <= j < kids.len() && #[trigger] kids[j] == c;
                        assert(now_kids[j] == c);
                    }
                } else if c == at {
                    assert(now_kids[kids.len() as int] == c);
                } else {
                    assert(parent_linked(now, c, at));
                }
            }
        } else {
            lemma_below_linked(site, i, idx, sheets, k - 1);
        }
    }
}

/// The sheets of a plan form a tree: the first one is the root, every other sheet has a parent
/// before it, and is listed among the children of exactly that parent, exactly once.
pub proof fn law_sheets_form_a_tree(sch: Schematic, design: DesignModel, cfg: SchConfig, project: Seq<char>)
    requires
        sch.wf(),
        planned(sch, design, cfg, project).len() <= usize::MAX,
    ensures
        planned(sch, design, cfg, project).len() > 0,
        planned(sch, design, cfg, project)[0].parent is None,
        linked(planned(sch, design, cfg, project), 0),
{
    reveal(planned);
    let site = site_of(sch, design, cfg);
    let all = site.all_sheets(project);
    let r = planned(sch, design, cfg, project);
    assert(r.len() == all.len());
    lemma_emitted_linked(
        site,
        sch.root as int,
        None,
        project,
        project + ".kicad_sch"@,
        Seq::empty(),
    );
    assert forall|s: int| 0 <= s < r.len() implies #[trigger] children_linked(r, s) by {
        assert(children_linked(all, s));
        assert(r[s].children == all[s].children);
        assert forall|k: int| 0 <= k < r[s].children.len() implies s < #[trigger] r[s].children[k]
            < r.len() && r[r[s].children[k] as int].parent == Some(s as usize) by {
            assert(r[s].children[k] == all[s].children[k]);
        }
    }
    assert forall|c: int| 0 < c < r.len() implies #[trigger] parent_linked(r, c, 0) by {
        assert(parent_linked(all, c, 0));
    }
}

// ---------------------------------------------------------------- no part is lost

impl Site {
    /// Every component below the module, as far as the first `k` children lead to it.
    pub open spec fn parts_below(self, i: int, k: int) -> Multiset<usize>
        decreases self.count() - i, k,
    {
        if !(0 <= i < self.count()) || k <= 0 || k > self.children(i).len() {
            self.own_comps(i, self.children(i).len() as int).to_multiset()
        } else {
            let before = self.parts_below(i, k - 1);
            let c = self.child(i, k - 1).instance as int;
            if self.module_at(i, k - 1) {
                before.add(self.parts_below(c, self.children(c).len() as int))
            } else {
                before
            }
        }
    }

    /// Every component below the module.
    pub open spec fn all_parts(self, i: int) -> Multiset<usize> {
        self.parts_below(i, self.children(i).len() as int)
    }

    /// Every component below the first `k` of the listed modules.
    pub open spec fn branch_parts(self, bs: Seq<Branch>, k: int) -> Multiset<usize>
        decreases k,
    {
        if k <= 0 || k > bs.len() {
            Multiset::empty()
        } else {
            self.branch_parts(bs, k - 1).add(self.all_parts(bs[k - 1].instance as int))
        }
    }
}

/// The components on the first `n` sheets.
pub open spec fn drawn(sheets: Seq<SheetView>, n: int) -> Multiset<usize>
    decreases n,
{
    if n <= 0 || n > sheets.len() {
        Multiset::empty()
    } else {
        drawn(sheets, n - 1).add(sheets[n - 1].comps.to_multiset())
    }
}

proof fn lemma_branch_parts_join(site: Site, a: Seq<Branch>, b: Seq<Branch>, k: int)
    requires
        0 <= k <= b.len(),
    ensures
        site.branch_parts(a + b, a.len() + k) == site.branch_parts(a, a.len() as int).add(
            site.branch_parts(b, k),
        ),
    decreases k,
{
    if k > 0 {
        lemma_branch_parts_join(site, a, b, k - 1);
        assert((a + b)[a.len() + k - 1] == b[k - 1]);
        assert(site.branch_parts(a + b, a.len() + k) =~= site.branch_parts(a, a.len() as int).add(
            site.branch_parts(b, k),
        ));
    } else {
        lemma_branch_parts_prefix(site, a, b, a.len() as int);
        assert(site.branch_parts(a, a.len() as int).add(Multiset::empty()) =~= site.branch_parts(
            a,
            a.len() as int,
        ));
    }
}

proof fn lemma_branch_parts_prefix(site: Site, a: Seq<Branch>, b: Seq<Branch>, k: int)
    requires
        0 <= k <= a.len(),
    ensures
        site.branch_parts(a + b, k) == site.branch_parts(a, k),
    decreases k,
{
    if k > 0 {
        lemma_branch_parts_prefix(site, a, b, k - 1);
        assert((a + b)[k - 1] == a[k - 1]);
    }
}

/// What is drawn with a module, and what is below the sheets under it, is all that is below it.
proof fn lemma_parts_split(site: Site, i: int, k: int)
    requires
        0 <= i < site.count(),
        0 <= k <= site.children(i).len(),
    ensures
        site.comps(i, k).to_multiset().add(
            site.branch_parts(site.branches(i, k), site.branches(i, k).len() as int),
        ) == site.parts_below(i, k),
    decreases site.count() - i, k,
{
    broadcast use vstd::seq_lib::group_to_multiset_ensures;

    if k == 0 {
        assert(site.branch_parts(site.branches(i, 0), 0) == Multiset::<usize>::empty());
        assert(site.comps(i, 0).to_multiset().add(Multiset::empty()) =~= site.parts_below(i, 0));
    } else {
        lemma_parts_split(site, i, k - 1);
        let c = site.child(i, k - 1).instance as int;
        let comps0 = site.comps(i, k - 1);
        let br0 = site.branches(i, k - 1);
        if site.module_at(i, k - 1) {
            let n = site.children(c).len() as int;
            if site.is_sheet(c) {
                let br = site.branches(i, k);
                let one = seq![Branch { name: site.child(i, k - 1).name, instance: c as usize }];
                assert(br =~= br0 + one);
                lemma_branch_parts_join(site, br0, one, 1);
                assert(site.branch_parts(one, 0) == Multiset::<usize>::empty());
                assert(site.branch_parts(one, 1) =~= site.all_parts(c));
                assert(site.comps(i, k).to_multiset().add(
                    site.branch_parts(br, br.len() as int),
                ) =~= site.parts_below(i, k));
            } else {
                lemma_parts_split(site, c, n);
                lemma_branch_parts_join(
                    site,
                    br0,
                    site.all_branches(c),
                    site.all_branches(c).len() as int,
                );
                vstd::seq_lib::lemma_multiset_commutative(comps0, site.all_comps(c));
                assert(site.comps(i, k).to_multiset() =~= comps0.to_multiset().add(
                    site.all_comps(c).to_multiset(),
                ));
                assert(site.comps(i, k).to_multiset().add(
                    site.branch_parts(site.branches(i, k), site.branches(i, k).len() as int),
                ) =~= site.parts_below(i, k));
            }
        }
    }
}

proof fn lemma_drawn_prefix(a: Seq<SheetView>, b: Seq<SheetView>, n: int)
    requires
        0 <= n <= a.len(),
        n <= b.len(),
        forall|s: int| 0 <= s < n ==> (#[trigger] a[s]).comps == b[s].comps,
    ensures
        drawn(a, n) == drawn(b, n),
    decreases n,
{
    if n > 0 {
        lemma_drawn_prefix(a, b, n - 1);
        assert(a[n - 1].comps == b[n - 1].comps);
    }
}

proof fn lemma_emitted_parts(
    site: Site,
    i: int,
    parent: Option<usize>,
    title: Seq<char>,
    file: Seq<char>,
    sheets: Seq<SheetView>,
)
    requires
        0 <= i < site.count(),
    ensures
        ({
            let r = site.emitted(i, parent, title, file, sheets);
            &&& r.len() > sheets.len()
            &&& drawn(r, r.len() as int) == drawn(sheets, sheets.len() as int).add(
                site.all_parts(i),
            )
        }),
    decreases site.count() - i, 1nat, 0int,
{
    let idx = sheets.len() as int;
    let bare = site.bare_sheet(i, parent, title, file, idx);
    let start = sheets.push(bare);
    let n = site.all_branches(i).len() as int;
    let all = site.emitted_below(i, idx, start, n).0;
    let r = site.emitted(i, parent, title, file, sheets);
    lemma_below_parts(site, i, idx, start, n);
    lemma_parts_split(site, i, site.children(i).len() as int);
    lemma_drawn_prefix(sheets, start, idx);
    assert(drawn(start, idx + 1) == drawn(sheets, idx).add(site.all_comps(i).to_multiset()));
    assert forall|s: int| 0 <= s < r.len() implies (#[trigger] r[s]).comps == all[s].comps by {}
    lemma_drawn_prefix(r, all, r.len() as int);
    assert(drawn(r, r.len() as int) =~= drawn(sheets, idx).add(site.all_parts(i)));
}

proof fn lemma_below_parts(site: Site, i: int, idx: int, sheets: Seq<SheetView>, k: int)
    requires
        0 <= k <= site.all_branches(i).len(),
        0 <= i < site.count(),
    ensures
        ({
            let r = site.emitted_below(i, idx, sheets, k).0;
            &&& r.len() >= sheets.len()
            &&& drawn(r, r.len() as int) == drawn(sheets, sheets.len() as int).add(
                site.branch_parts(site.all_branches(i), k),
            )
        }),
    decreases site.count() - i, 0nat, k,
{
    let r = site.emitted_below(i, idx, sheets, k).0;
    if k == 0 {
        assert(drawn(r, r.len() as int) =~= drawn(sheets, sheets.len() as int).add(
            Multiset::empty(),
        ));
    } else {
        lemma_below_parts(site, i, idx, sheets, k - 1);
        let before = site.emitted_below(i, idx, sheets, k - 1).0;
        let b = site.all_branches(i)[k - 1];
        crate::sheets::lemma_branches_below(site, i, site.children(i).len() as int);
        assert(i < b.instance < site.count());
        let file = fresh(file_base(b.name@), ".kicad_sch"@, file_names(before));
        lemma_emitted_parts(site, b.instance as int, Some(idx as usize), b.name@, file, before);
        assert(drawn(r, r.len() as int) =~= drawn(sheets, sheets.len() as int).add(
            site.branch_parts(site.all_branches(i), k),
        ));
    }
}

/// The sheets together draw exactly the components below the root module, each as often as it is
/// listed there: inlining a module loses no part and doubles none.
pub proof fn law_every_part_is_drawn_once(
    sch: Schematic,
    design: DesignModel,
    cfg: SchConfig,
    project: Seq<char>,
)
    requires
        sch.wf(),
    ensures
        ({
            let r = planned(sch, design, cfg, project);
            drawn(r, r.len() as int) == site_of(sch, design, cfg).all_parts(sch.root as int)
        }),
{
    reveal(planned);
    let site = site_of(sch, design, cfg);
    let none = Seq::<SheetView>::empty();
    lemma_emitted_parts(site, sch.root as int, None, project, project + ".kicad_sch"@, none);
    let all = site.all_sheets(project);
    let r = planned(sch, design, cfg, project);
    lemma_drawn_prefix(r, all, r.len() as int);
    assert(drawn(none, 0).add(site.all_parts(sch.root as int)) =~= site.all_parts(
        sch.root as int,
    ));
}

// ---------------------------------------------------------------- ports

proof fn lemma_ports(design: DesignModel, sheets: Seq<SheetView>, si: int, n: int)
    requires
        0 <= n <= design.nets@.len(),
        design.nets@.len() <= usize::MAX,
    ensures
        forall|p: int|
            0 <= p < ports_upto(design, sheets, si, n).len() ==> (#[trigger] ports_upto(
                design,
                sheets,
                si,
                n,
            )[p]).net < n && crosses(
                sheets,
                design.nets@[ports_upto(design, sheets, si, n)[p].net as int],
                si,
            ),
        forall|ni: int|
            0 <= ni < n && #[trigger] crosses(sheets, design.nets@[ni], si) ==> exists|p: int|
                0 <= p < ports_upto(design, sheets, si, n).len() && (#[trigger] ports_upto(
                    design,
                    sheets,
                    si,
                    n,
                )[p]).net == ni,
    decreases n,
{
    if n > 0 {
        lemma_ports(design, sheets, si, n - 1);
        let before = ports_upto(design, sheets, si, n - 1);
        let now = ports_upto(design, sheets, si, n);
        assert forall|p: int| 0 <= p < now.len() implies (#[trigger] now[p]).net < n && crosses(
            sheets,
            design.nets@[now[p].net as int],
            si,
        ) by {
            if p < before.len() {
                assert(now[p] == before[p]);
            }
        }
        assert forall|ni: int| 0 <= ni < n && #[trigger] crosses(
            sheets,
            design.nets@[ni],
            si,
        ) implies exists|p: int| 0 <= p < now.len() && (#[trigger] now[p]).net == ni by {
            if ni < n - 1 {
                let p = choose|p: int| 0 <= p < before.len() && (#[trigger] before[p]).net == ni;
                assert(now[p].net == ni);
            } else {
                assert(now[before.len() as int].net == ni);
            }
        }
    }
}

/// The ports of a sheet other than the root are exactly the signals that cross its boundary: no
/// rail ever becomes a port.
pub proof fn law_ports_are_crossing_signals(design: DesignModel, sheets: Seq<SheetView>, si: int)
    requires
        si > 0,
        design.nets@.len() <= usize::MAX,
    ensures
        forall|p: int|
            0 <= p < ports_of(design, sheets, si).len() ==> (#[trigger] ports_of(
                design,
                sheets,
                si,
            )[p]).net < design.nets@.len() && crosses(
                sheets,
                design.nets@[ports_of(design, sheets, si)[p].net as int],
                si,
            ),
        forall|ni: int|
            0 <= ni < design.nets@.len() && #[trigger] crosses(sheets, design.nets@[ni], si)
                ==> exists|p: int|
                0 <= p < ports_of(design, sheets, si).len() && (#[trigger] ports_of(
                    design,
                    sheets,
                    si,
                )[p]).net == ni,
{
    lemma_ports(design, sheets, si, design.nets@.len() as int);
}

} // verus!
