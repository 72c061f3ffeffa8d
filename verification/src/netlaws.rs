//! The nets of the design are those of the schematic, with the same pads.

use vstd::prelude::*;
use crate::model::{DesignModel, NetClass, NetModel, PadRef};
use crate::netlist::{
    comp_at, connecting, endpoint_behind, endpoints_of, is_design, is_net, name_behind, net_order,
    ordered_endpoints, owner_of_port, pad_refs, parts, PartView,
};
use crate::order::{law_sort_is_permutation, lemma_sorted_items, sorted_by, upto};
use crate::schematic::{dotted, pads, Net, Schematic};

verus! {

// ---------------------------------------------------------------- the pads of a net

/// Port `p` of the net belongs to the part with this path and leads to the pad.
pub open spec fn port_leads(sch: Schematic, net: Net, p: int, key: Seq<char>, pad: Seq<char>) -> bool {
    &&& 0 <= p < net.ports@.len()
    &&& net.ports@[p].owner matches Some(o) && o < sch.instances@.len() && dotted(
        sch.instances@[o as int].path@,
    ) == key
    &&& net.ports@[p].port < sch.instances@.len()
    &&& exists|k: int|
        0 <= k < pads(sch.instances@[net.ports@[p].port as int]).len() && (#[trigger] pads(
            sch.instances@[net.ports@[p].port as int],
        )[k])@ == pad
}

/// The endpoint stands for a port of the net.
pub open spec fn endpoint_ok(sch: Schematic, ps: Seq<PartView>, net: Net, e: PadRef) -> bool {
    e.comp < ps.len() && exists|p: int| #[trigger]
        port_leads(sch, net, p, ps[e.comp as int].key, e.pad@)
}

/// One of the endpoints is the pad of a part with this path.
pub open spec fn has_endpoint(
    ps: Seq<PartView>,
    eps: Seq<PadRef>,
    key: Seq<char>,
    pad: Seq<char>,
) -> bool {
    exists|i: int|
        0 <= i < eps.len() && (#[trigger] eps[i]).comp < ps.len() && ps[eps[i].comp as int].key
            == key && eps[i].pad@ == pad
}

pub open spec fn has_part(ps: Seq<PartView>, key: Seq<char>) -> bool {
    exists|i: int| 0 <= i < ps.len() && (#[trigger] ps[i]).key == key
}

proof fn lemma_comp_at(ps: Seq<PartView>, key: Seq<char>, n: int)
    requires
        0 <= n <= ps.len(),
    ensures
        match comp_at(ps, key, n) {
            Some(k) => 0 <= k < n && ps[k].key == key,
            None => forall|i: int| 0 <= i < n ==> (#[trigger] ps[i]).key != key,
        },
    decreases n,
{
    if n > 0 {
        lemma_comp_at(ps, key, n - 1);
    }
}

proof fn lemma_pad_refs(ci: usize, v: Seq<String>, n: int)
    requires
        0 <= n <= v.len(),
    ensures
        pad_refs(ci, v, n).len() == n,
        forall|i: int|
            0 <= i < n ==> (#[trigger] pad_refs(ci, v, n)[i]).comp == ci && pad_refs(ci, v, n)[i].pad
                == v[i],
    decreases n,
{
    if n > 0 {
        lemma_pad_refs(ci, v, n - 1);
    }
}

proof fn lemma_endpoints(sch: Schematic, ps: Seq<PartView>, net: Net, n: int)
    requires
        0 <= n <= net.ports@.len(),
        ps.len() <= usize::MAX,
    ensures
        forall|i: int|
            0 <= i < endpoints_of(sch, ps, net, n).len() ==> endpoint_ok(
                sch,
                ps,
                net,
                #[trigger] endpoints_of(sch, ps, net, n)[i],
            ),
        forall|p: int, key: Seq<char>, pad: Seq<char>|
            0 <= p < n && #[trigger] port_leads(sch, net, p, key, pad) && has_part(ps, key)
                ==> has_endpoint(ps, endpoints_of(sch, ps, net, n), key, pad),
    decreases n,
{
    if n > 0 {
        lemma_endpoints(sch, ps, net, n - 1);
        let before = endpoints_of(sch, ps, net, n - 1);
        let now = endpoints_of(sch, ps, net, n);
        let port = net.ports@[n - 1];
        let owner = owner_of_port(sch, ps, port.owner);
        let size = before.len() as int;
        if let Some(o) = port.owner {
            if o < sch.instances@.len() {
                lemma_comp_at(ps, dotted(sch.instances@[o as int].path@), ps.len() as int);
            }
        }
        let list = pads(sch.instances@[port.port as int]);
        if let Some(ci) = owner {
            lemma_pad_refs(ci as usize, list, list.len() as int);
        }
        assert forall|i: int| 0 <= i < now.len() implies endpoint_ok(
            sch,
            ps,
            net,
            #[trigger] now[i],
        ) by {
            if i < size {
                assert(now[i] == before[i]);
                assert(endpoint_ok(sch, ps, net, before[i]));
            } else {
                let ci = owner->0;
                assert(now[i] == pad_refs(ci as usize, list, list.len() as int)[i - size]);
                assert(list[i - size]@ == now[i].pad@);
                assert(port_leads(sch, net, n - 1, ps[now[i].comp as int].key, now[i].pad@));
            }
        }
        assert forall|p: int, key: Seq<char>, pad: Seq<char>|
            0 <= p < n && #[trigger] port_leads(sch, net, p, key, pad) && has_part(
                ps,
                key,
            ) implies has_endpoint(ps, now, key, pad) by {
            if p < n - 1 {
                assert(has_endpoint(ps, before, key, pad));
                let i = choose|i: int|
                    0 <= i < before.len() && (#[trigger] before[i]).comp < ps.len()
                        && ps[before[i].comp as int].key == key && before[i].pad@ == pad;
                assert(now[i] == before[i]);
            } else {
                let ci = owner->0;
                let k = choose|k: int| 0 <= k < list.len() && (#[trigger] list[k])@ == pad;
                assert(now[size + k] == pad_refs(ci as usize, list, list.len() as int)[k]);
            }
        }
    }
}

/// Sorting keeps the endpoints.
proof fn lemma_ordered(sch: Schematic, ps: Seq<PartView>, net: Net)
    requires
        endpoints_of(sch, ps, net, net.ports@.len() as int).len() <= usize::MAX,
    ensures
        ({
            let eps = endpoints_of(sch, ps, net, net.ports@.len() as int);
            let r = ordered_endpoints(sch, ps, net);
            &&& forall|i: int| 0 <= i < r.len() ==> eps.contains(#[trigger] r[i])
            &&& forall|i: int| 0 <= i < eps.len() ==> r.contains(#[trigger] eps[i])
        }),
{
    broadcast use vstd::seq_lib::group_to_multiset_ensures;

    let eps = endpoints_of(sch, ps, net, net.ports@.len() as int);
    let all = upto(eps.len() as int);
    let gt = endpoint_behind(ps, eps);
    let ranked = sorted_by(all, gt);
    let r = ordered_endpoints(sch, ps, net);
    law_sort_is_permutation(all, gt);
    lemma_sorted_items(all, gt, |i: usize| i < eps.len());
    assert forall|i: int| 0 <= i < r.len() implies eps.contains(#[trigger] r[i]) by {
        assert((|i: usize| i < eps.len())(ranked[i]));
        assert(r[i] == eps[ranked[i] as int]);
    }
    assert forall|i: int| 0 <= i < eps.len() implies r.contains(#[trigger] eps[i]) by {
        assert(all[i] == i as usize);
        assert(all.contains(i as usize));
        assert(all.to_multiset().count(i as usize) > 0);
        assert(ranked.contains(i as usize));
        let k = choose|k: int| 0 <= k < ranked.len() && ranked[k] == i as usize;
        assert(r[k] == eps[i]);
    }
}

/// The net of the design is that of the schematic: its name, its class, and as its endpoints the
/// pads that its ports lead to on parts of the design, and no others.
pub open spec fn same_net(sch: Schematic, ps: Seq<PartView>, m: NetModel, net: Net) -> bool {
    &&& m.name == net.name
    &&& m.class == (if net.kind@ == "Power"@ {
        NetClass::Power
    } else if net.kind@ == "Ground"@ {
        NetClass::Ground
    } else {
        NetClass::Signal
    })
    &&& forall|i: int|
        0 <= i < m.endpoints@.len() ==> endpoint_ok(sch, ps, net, #[trigger] m.endpoints@[i])
    &&& forall|p: int, key: Seq<char>, pad: Seq<char>| #[trigger]
        port_leads(sch, net, p, key, pad) && has_part(ps, key) ==> has_endpoint(
            ps,
            m.endpoints@,
            key,
            pad,
        )
}

proof fn lemma_same_net(sch: Schematic, ps: Seq<PartView>, m: NetModel, net: Net)
    requires
        ps.len() <= usize::MAX,
        is_net(m, sch, ps, net),
        endpoints_of(sch, ps, net, net.ports@.len() as int).len() <= usize::MAX,
    ensures
        same_net(sch, ps, m, net),
{
    let eps = endpoints_of(sch, ps, net, net.ports@.len() as int);
    let r = m.endpoints@;
    lemma_endpoints(sch, ps, net, net.ports@.len() as int);
    lemma_ordered(sch, ps, net);
    assert forall|i: int| 0 <= i < r.len() implies endpoint_ok(sch, ps, net, #[trigger] r[i]) by {
        assert(eps.contains(r[i]));
        let k = choose|k: int| 0 <= k < eps.len() && eps[k] == r[i];
        assert(endpoint_ok(sch, ps, net, eps[k]));
    }
    assert forall|p: int, key: Seq<char>, pad: Seq<char>| #[trigger]
        port_leads(sch, net, p, key, pad) && has_part(ps, key) implies has_endpoint(
        ps,
        r,
        key,
        pad,
    ) by {
        assert(has_endpoint(ps, eps, key, pad));
        let i = choose|i: int|
            0 <= i < eps.len() && (#[trigger] eps[i]).comp < ps.len() && ps[eps[i].comp as int].key
                == key && eps[i].pad@ == pad;
        assert(r.contains(eps[i]));
        let k = choose|k: int| 0 <= k < r.len() && r[k] == eps[i];
        assert(r[k].pad@ == pad);
    }
}

// ---------------------------------------------------------------- the nets of the design

proof fn lemma_connecting(sch: Schematic, n: int)
    requires
        0 <= n <= sch.nets@.len(),
    ensures
        connecting(sch, n).no_duplicates(),
        forall|i: int|
            0 <= i < connecting(sch, n).len() ==> #[trigger] connecting(sch, n)[i] < n
                && sch.nets@[connecting(sch, n)[i] as int].kind@ != "NotConnected"@,
        forall|k: int|
            0 <= k < n && (#[trigger] sch.nets@[k]).kind@ != "NotConnected"@ ==> connecting(
                sch,
                n,
            ).contains(k as usize),
    decreases n,
{
    assert(sch.nets.len() == sch.nets@.len());
    if n > 0 {
        lemma_connecting(sch, n - 1);
        let before = connecting(sch, n - 1);
        let r = connecting(sch, n);
        assert forall|k: int|
            0 <= k < n && (#[trigger] sch.nets@[k]).kind@ != "NotConnected"@ implies r.contains(
            k as usize,
        ) by {
            if k < n - 1 {
                assert(before.contains(k as usize));
                let i = choose|i: int| 0 <= i < before.len() && before[i] == k as usize;
                assert(r[i] == k as usize);
            } else {
                assert(r[r.len() - 1] == k as usize);
            }
        }
    }
}

/// The lists of endpoints are no longer than a list can be.
pub open spec fn endpoints_fit(sch: Schematic, ps: Seq<PartView>) -> bool {
    forall|k: int|
        0 <= k < sch.nets@.len() ==> endpoints_of(
            sch,
            ps,
            #[trigger] sch.nets@[k],
            sch.nets@[k].ports@.len() as int,
        ).len() <= usize::MAX
}

/// The design holds the nets of the schematic that connect, each once and no others: with its
/// name, with the class that its kind names, and with the pads that its ports lead to.
pub proof fn law_design_keeps_the_nets(d: DesignModel, sch: Schematic, limit: u64)
    requires
        is_design(d, sch, limit),
        endpoints_fit(sch, parts(d.comps@)),
    ensures
        forall|i: int|
            0 <= i < d.nets@.len() ==> exists|k: int|
                0 <= k < sch.nets@.len() && sch.nets@[k].kind@ != "NotConnected"@ && same_net(
                    sch,
                    parts(d.comps@),
                    #[trigger] d.nets@[i],
                    #[trigger] sch.nets@[k],
                ),
        forall|k: int|
            0 <= k < sch.nets@.len() && (#[trigger] sch.nets@[k]).kind@ != "NotConnected"@
                ==> has_net(d, sch, k),
        d.nets@.len() == connecting(sch, sch.nets@.len() as int).len(),
{
    broadcast use vstd::seq_lib::group_to_multiset_ensures;

    reveal(is_design);
    let ps = parts(d.comps@);
    assert(d.comps.len() == d.comps@.len());
    let all = connecting(sch, sch.nets@.len() as int);
    let order = net_order(sch);
    lemma_connecting(sch, sch.nets@.len() as int);
    law_sort_is_permutation(all, name_behind(sch));
    assert forall|i: int| 0 <= i < d.nets@.len() implies exists|k: int|
        0 <= k < sch.nets@.len() && sch.nets@[k].kind@ != "NotConnected"@ && same_net(
            sch,
            ps,
            #[trigger] d.nets@[i],
            #[trigger] sch.nets@[k],
        ) by {
        lemma_listed_net(sch, i);
        let k = order[i] as int;
        assert(is_net(d.nets@[i], sch, ps, sch.nets@[k]));
        lemma_same_net(sch, ps, d.nets@[i], sch.nets@[k]);
    }
    assert forall|k: int|
        0 <= k < sch.nets@.len() && (#[trigger] sch.nets@[k]).kind@ != "NotConnected"@ implies has_net(
        d,
        sch,
        k,
    ) by {
        assert(sch.nets.len() == sch.nets@.len());
        assert(all.contains(k as usize));
        assert(all.to_multiset().count(k as usize) > 0);
        assert(order.contains(k as usize));
        let i = choose|i: int| 0 <= i < order.len() && order[i] == k as usize;
        assert(is_net(d.nets@[i], sch, ps, sch.nets@[order[i] as int]));
        lemma_same_net(sch, ps, d.nets@[i], sch.nets@[k]);
    }
}

/// The design holds the net.
pub open spec fn has_net(d: DesignModel, sch: Schematic, k: int) -> bool {
    exists|i: int|
        0 <= i < d.nets@.len() && same_net(
            sch,
            parts(d.comps@),
            #[trigger] d.nets@[i],
            sch.nets@[k],
        )
}

proof fn lemma_listed_net(sch: Schematic, i: int)
    requires
        0 <= i < net_order(sch).len(),
    ensures
        net_order(sch)[i] < sch.nets@.len(),
        sch.nets@[net_order(sch)[i] as int].kind@ != "NotConnected"@,
{
    let all = connecting(sch, sch.nets@.len() as int);
    lemma_connecting(sch, sch.nets@.len() as int);
    let good = |k: usize| k < sch.nets@.len() && sch.nets@[k as int].kind@ != "NotConnected"@;
    law_sort_is_permutation(all, name_behind(sch));
    lemma_sorted_items(all, name_behind(sch), good);
    assert(good(net_order(sch)[i]));
}

} // verus!
