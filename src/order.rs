//! The order in which resolved records are presented: a zone's apex host
//! first, then hosts by name and address; PTR records by address.
use crate::network::IpAddress;
use crate::record::{ARecord, PtrRecord};
use crate::text::chars_of;
use crate::transform::{a_views, ptr_views};
use vstd::prelude::*;
use vstd::seq_lib::group_to_multiset_ensures;

verus! {

/// Lexicographic order on character sequences, by code point (the order
/// of their UTF-8 bytes).
pub open spec fn chars_lt(a: Seq<char>, b: Seq<char>) -> bool
    decreases a.len(),
{
    if a.len() == 0 {
        b.len() > 0
    } else if b.len() == 0 {
        false
    } else if a[0] != b[0] {
        (a[0] as u32) < (b[0] as u32)
    } else {
        chars_lt(a.drop_first(), b.drop_first())
    }
}

pub proof fn lemma_chars_lt_asymmetric(a: Seq<char>, b: Seq<char>)
    ensures
        !(chars_lt(a, b) && chars_lt(b, a)),
    decreases a.len(),
{
    if a.len() > 0 && b.len() > 0 && a[0] == b[0] {
        lemma_chars_lt_asymmetric(a.drop_first(), b.drop_first());
    }
}

/// Address order: IPv4 before IPv6, numeric within a family.
pub open spec fn ip_lt(a: IpAddress, b: IpAddress) -> bool {
    match (a, b) {
        (IpAddress::V4(x), IpAddress::V4(y)) => x < y,
        (IpAddress::V4(_), IpAddress::V6(_)) => true,
        (IpAddress::V6(_), IpAddress::V4(_)) => false,
        (IpAddress::V6(x), IpAddress::V6(y)) => x < y,
    }
}

/// Host order within zone `zone`: records of the apex first, then by name,
/// then by address.
pub open spec fn host_lt(zone: Seq<char>, a: (Seq<char>, IpAddress, u32), b: (Seq<char>, IpAddress, u32)) -> bool {
    let apex_a = a.0 == zone;
    let apex_b = b.0 == zone;
    if apex_a || apex_b {
        apex_a && !apex_b
    } else {
        chars_lt(a.0, b.0) || (a.0 == b.0 && ip_lt(a.1, b.1))
    }
}

/// Whether no record of `s` is strictly before its predecessor.
pub open spec fn hosts_ordered(zone: Seq<char>, s: Seq<(Seq<char>, IpAddress, u32)>) -> bool {
    forall|i: int| 0 <= i < s.len() - 1 ==> !host_lt(zone, #[trigger] s[i + 1], s[i])
}

/// Whether no PTR record of `s` has a lower address than its predecessor.
pub open spec fn ptrs_ordered(s: Seq<(Seq<char>, IpAddress, u32)>) -> bool {
    forall|i: int| 0 <= i < s.len() - 1 ==> !ip_lt((#[trigger] s[i + 1]).1, s[i].1)
}

fn chars_less(a: &Vec<char>, b: &Vec<char>) -> (r: bool)
    ensures
        r == chars_lt(a@, b@),
{
    let mut i: usize = 0;
    assert(a@.skip(0) =~= a@ && b@.skip(0) =~= b@);
    while i < a.len() && i < b.len() && a[i] == b[i]
        invariant
            i <= a.len() && i <= b.len(),
            chars_lt(a@, b@) == chars_lt(a@.skip(i as int), b@.skip(i as int)),
        decreases a.len() - i,
    {
        assert(a@.skip(i as int).drop_first() =~= a@.skip(i + 1));
        assert(b@.skip(i as int).drop_first() =~= b@.skip(i + 1));
        i = i + 1;
    }
    if i == a.len() {
        i < b.len()
    } else if i == b.len() {
        false
    } else {
        assert(a@.skip(i as int)[0] == a@[i as int]);
        assert(b@.skip(i as int)[0] == b@[i as int]);
        (a[i] as u32) < (b[i] as u32)
    }
}

fn ip_less(a: IpAddress, b: IpAddress) -> (r: bool)
    ensures
        r == ip_lt(a, b),
{
    match (a, b) {
        (IpAddress::V4(x), IpAddress::V4(y)) => x < y,
        (IpAddress::V4(_), IpAddress::V6(_)) => true,
        (IpAddress::V6(_), IpAddress::V4(_)) => false,
        (IpAddress::V6(x), IpAddress::V6(y)) => x < y,
    }
}

fn chars_equal(a: &Vec<char>, b: &Vec<char>) -> (r: bool)
    ensures
        r == (a@ == b@),
{
    if a.len() != b.len() {
        return false;
    }
    let mut i: usize = 0;
    while i < a.len()
        invariant
            a.len() == b.len(),
            i <= a.len(),
            forall|k: int| 0 <= k < i ==> a@[k] == b@[k],
        decreases a.len() - i,
    {
        if a[i] != b[i] {
            return false;
        }
        i = i + 1;
    }
    assert(a@ =~= b@);
    true
}

fn host_less(zone: &Vec<char>, a: &ARecord, b: &ARecord) -> (r: bool)
    ensures
        r == host_lt(zone@, (a.name@, a.ip, a.ttl), (b.name@, b.ip, b.ttl)),
{
    let an = chars_of(a.name.as_str());
    let bn = chars_of(b.name.as_str());
    let apex_a = chars_equal(&an, zone);
    let apex_b = chars_equal(&bn, zone);
    if apex_a || apex_b {
        apex_a && !apex_b
    } else {
        chars_less(&an, &bn) || (chars_equal(&an, &bn) && ip_less(a.ip, b.ip))
    }
}

/// The host records of zone `zone_name` in presentation order: the same
/// records, the apex first, then by name, then by address.
pub fn order_hosts(zone_name: &str, hosts: Vec<ARecord>) -> (r: Vec<ARecord>)
    ensures
        a_views(r@).to_multiset() == a_views(hosts@).to_multiset(),
        hosts_ordered(zone_name@, a_views(r@)),
{
    broadcast use group_to_multiset_ensures;

    let zone = chars_of(zone_name);
    let ghost all = hosts@;
    let mut out: Vec<ARecord> = Vec::new();
    assert(all.take(0) =~= Seq::<ARecord>::empty());
    assert(a_views(out@) =~= a_views(all.take(0)));
    for x in it: hosts
        invariant
            it.seq() == all,
            zone@ == zone_name@,
            a_views(out@).to_multiset() == a_views(all.take(it.index() as int)).to_multiset(),
            hosts_ordered(zone@, a_views(out@)),
    {
        let ghost i = it.index() as int;
        let ghost xv = (x.name@, x.ip, x.ttl);
        let mut pos: usize = 0;
        while pos < out.len() && !host_less(&zone, &x, &out[pos])
            invariant
                pos <= out.len(),
                xv == (x.name@, x.ip, x.ttl),
                a_views(out@).len() == out@.len(),
                forall|k: int| 0 <= k < pos ==> !host_lt(zone@, xv, #[trigger] a_views(out@)[k]),
            decreases out.len() - pos,
        {
            pos = pos + 1;
        }
        let ghost before = a_views(out@);
        assert(pos < out.len() ==> host_lt(zone@, xv, before[pos as int]));
        assert(hosts_ordered(zone@, before));
        proof {
            if pos < out.len() {
                lemma_host_lt_asymmetric(zone@, xv, before[pos as int]);
            }
        }
        out.insert(pos, x);
        assert(a_views(out@) =~= before.insert(pos as int, xv));
        assert(all.take(i + 1) =~= all.take(i).push(all[i]));
        assert(all[i] == x);
        assert(a_views(all.take(i + 1)) =~= a_views(all.take(i)).push(xv));
        proof {
            vstd::seq_lib::to_multiset_insert(before, pos as int, xv);
            vstd::seq_lib::to_multiset_build(a_views(all.take(i)), xv);
        }
        assert(hosts_ordered(zone@, a_views(out@))) by {
            let s = a_views(out@);
            assert forall|k: int| 0 <= k < s.len() - 1 implies !host_lt(zone@, #[trigger] s[k + 1], s[k]) by {
                if k + 1 < pos {
                    assert(s[k] == before[k] && s[k + 1] == before[k + 1]);
                    assert(!host_lt(zone@, before[k + 1], before[k]));
                } else if k + 1 == pos {
                    assert(s[k] == before[k] && s[k + 1] == xv);
                    assert(!host_lt(zone@, xv, before[k]));
                } else if k == pos {
                    assert(s[k] == xv && s[k + 1] == before[k]);
                } else {
                    assert(s[k] == before[k - 1] && s[k + 1] == before[k]);
                    assert(!host_lt(zone@, before[(k - 1) + 1], before[k - 1]));
                }
            }
        }
    }
    assert(all.take(all.len() as int) =~= all);
    out
}

pub proof fn lemma_host_lt_asymmetric(zone: Seq<char>, a: (Seq<char>, IpAddress, u32), b: (Seq<char>, IpAddress, u32))
    ensures
        host_lt(zone, a, b) ==> !host_lt(zone, b, a),
{
    lemma_chars_lt_asymmetric(a.0, b.0);
    if a.0 == b.0 {
        lemma_chars_lt_irreflexive(a.0);
    }
}

pub proof fn lemma_chars_lt_irreflexive(a: Seq<char>)
    ensures
        !chars_lt(a, a),
    decreases a.len(),
{
    if a.len() > 0 {
        lemma_chars_lt_irreflexive(a.drop_first());
    }
}

/// The PTR records in presentation order: the same records, by address.
pub fn order_ptrs(ptrs: Vec<PtrRecord>) -> (r: Vec<PtrRecord>)
    ensures
        ptr_views(r@).to_multiset() == ptr_views(ptrs@).to_multiset(),
        ptrs_ordered(ptr_views(r@)),
{
    broadcast use group_to_multiset_ensures;

    let ghost all = ptrs@;
    let mut out: Vec<PtrRecord> = Vec::new();
    assert(all.take(0) =~= Seq::<PtrRecord>::empty());
    assert(ptr_views(out@) =~= ptr_views(all.take(0)));
    for x in it: ptrs
        invariant
            it.seq() == all,
            ptr_views(out@).to_multiset() == ptr_views(all.take(it.index() as int)).to_multiset(),
            ptrs_ordered(ptr_views(out@)),
    {
        let ghost i = it.index() as int;
        let ghost xv = (x.name@, x.ip, x.ttl);
        let mut pos: usize = 0;
        while pos < out.len() && !ip_less(x.ip, out[pos].ip)
            invariant
                pos <= out.len(),
                xv == (x.name@, x.ip, x.ttl),
                ptr_views(out@).len() == out@.len(),
                forall|k: int| 0 <= k < pos ==> !ip_lt(xv.1, (#[trigger] ptr_views(out@)[k]).1),
            decreases out.len() - pos,
        {
            pos = pos + 1;
        }
        let ghost before = ptr_views(out@);
        assert(pos < out.len() ==> ip_lt(xv.1, before[pos as int].1));
        assert(ptrs_ordered(before));
        out.insert(pos, x);
        assert(ptr_views(out@) =~= before.insert(pos as int, xv));
        assert(all.take(i + 1) =~= all.take(i).push(all[i]));
        assert(all[i] == x);
        assert(ptr_views(all.take(i + 1)) =~= ptr_views(all.take(i)).push(xv));
        proof {
            vstd::seq_lib::to_multiset_insert(before, pos as int, xv);
            vstd::seq_lib::to_multiset_build(ptr_views(all.take(i)), xv);
        }
        assert(ptrs_ordered(ptr_views(out@))) by {
            let s = ptr_views(out@);
            assert forall|k: int| 0 <= k < s.len() - 1 implies !ip_lt((#[trigger] s[k + 1]).1, s[k].1) by {
                if k + 1 < pos {
                    assert(s[k] == before[k] && s[k + 1] == before[k + 1]);
                    assert(!ip_lt(before[k + 1].1, before[k].1));
                } else if k + 1 == pos {
                    assert(s[k] == before[k] && s[k + 1] == xv);
                    assert(!ip_lt(xv.1, before[k].1));
                } else if k == pos {
                    assert(s[k] == xv && s[k + 1] == before[k]);
                } else {
                    assert(s[k] == before[k - 1] && s[k + 1] == before[k]);
                    assert(!ip_lt(before[(k - 1) + 1].1, before[k - 1].1));
                }
            }
        }
    }
    assert(all.take(all.len() as int) =~= all);
    out
}

} // verus!
