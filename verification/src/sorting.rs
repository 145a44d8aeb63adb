//! Devices in the order of their names.

use crate::model::{distinct_names, Device, DeviceView};
use crate::text::{lex_lt, str_lt};
use vstd::prelude::*;
use vstd::relations::total_ordering;

verus! {

/// `device` put into `sorted` behind every device whose name does not come after its own.
pub open spec fn insert_by_name(sorted: Seq<DeviceView>, device: DeviceView) -> Seq<DeviceView>
    decreases sorted.len(),
{
    if sorted.len() > 0 && lex_lt(device.name, sorted.last().name) {
        insert_by_name(sorted.drop_last(), device).push(sorted.last())
    } else {
        sorted.push(device)
    }
}

/// The devices in the lexicographic order of their names; devices of one name keep the order
/// in which they were listed.
pub open spec fn sort_by_name(devices: Seq<DeviceView>) -> Seq<DeviceView>
    decreases devices.len(),
{
    if devices.len() == 0 {
        devices
    } else {
        insert_by_name(sort_by_name(devices.drop_last()), devices.last())
    }
}

/// Whether no device of `devices` stands behind one whose name comes after its own.
pub open spec fn ordered_by_name(devices: Seq<DeviceView>) -> bool {
    forall|a: int, b: int|
        0 <= a < b < devices.len() ==> !lex_lt(#[trigger] devices[b].name, #[trigger] devices[a].name)
}

/// Of two names at most one comes before the other.
pub proof fn lemma_lex_lt_asymmetric(a: Seq<char>, b: Seq<char>)
    requires
        lex_lt(a, b),
    ensures
        !lex_lt(b, a),
    decreases a.len(),
{
    if a.len() > 0 && b.len() > 0 && a[0] == b[0] {
        lemma_lex_lt_asymmetric(a.drop_first(), b.drop_first());
    }
}

/// Where `b` does not come before `a`, nor `c` before `b`, `c` does not come before `a`.
pub proof fn lemma_lex_lt_chain(a: Seq<char>, b: Seq<char>, c: Seq<char>)
    requires
        !lex_lt(b, a),
        !lex_lt(c, b),
    ensures
        !lex_lt(c, a),
    decreases a.len(),
{
    if a.len() > 0 && b.len() > 0 && c.len() > 0 && a[0] == b[0] && b[0] == c[0] {
        lemma_lex_lt_chain(a.drop_first(), b.drop_first(), c.drop_first());
    }
}

/// Inserting at the place that `insert_by_name` picks: behind `at` devices, where the device
/// before that place does not come after `device` and every later one does.
proof fn lemma_insert_at(sorted: Seq<DeviceView>, device: DeviceView, at: int)
    requires
        0 <= at <= sorted.len(),
        at > 0 ==> !lex_lt(device.name, sorted[at - 1].name),
        forall|k: int| at <= k < sorted.len() ==> lex_lt(device.name, #[trigger] sorted[k].name),
    ensures
        insert_by_name(sorted, device) == sorted.insert(at, device),
    decreases sorted.len() - at,
{
    if at < sorted.len() {
        lemma_insert_at(sorted.drop_last(), device, at);
        assert(sorted.drop_last().insert(at, device).push(sorted.last()) =~= sorted.insert(
            at,
            device,
        ));
    } else {
        assert(sorted.push(device) =~= sorted.insert(at, device));
    }
}

/// Inserting a device keeps the order and adds that device alone.
pub proof fn lemma_insert_by_name(sorted: Seq<DeviceView>, device: DeviceView)
    requires
        ordered_by_name(sorted),
    ensures
        ordered_by_name(insert_by_name(sorted, device)),
        insert_by_name(sorted, device).to_multiset() == sorted.to_multiset().insert(device),
        insert_by_name(sorted, device).len() == sorted.len() + 1,
    decreases sorted.len(),
{
    broadcast use vstd::seq_lib::group_to_multiset_ensures;

    let out = insert_by_name(sorted, device);
    if sorted.len() > 0 && lex_lt(device.name, sorted.last().name) {
        let front = sorted.drop_last();
        let inner = insert_by_name(front, device);
        lemma_insert_by_name(front, device);
        assert(sorted =~= front.push(sorted.last()));
        assert(out.to_multiset() =~= sorted.to_multiset().insert(device));
        assert forall|a: int, b: int| 0 <= a < b < out.len() implies !lex_lt(
            #[trigger] out[b].name,
            #[trigger] out[a].name,
        ) by {
            if b == out.len() - 1 {
                // every device of `inner` is `device` or one of `front`
                assert(inner.to_multiset().count(inner[a]) > 0);
                if inner[a] == device {
                    lemma_lex_lt_asymmetric(device.name, sorted.last().name);
                } else {
                    assert(front.to_multiset().count(inner[a]) > 0);
                    assert(front.contains(inner[a]));
                    let k = choose|k: int| 0 <= k < front.len() && front[k] == inner[a];
                    assert(!lex_lt(sorted[sorted.len() - 1].name, sorted[k].name));
                }
            } else {
                assert(out[a] == inner[a] && out[b] == inner[b]);
            }
        }
    } else {
        assert(out.to_multiset() =~= sorted.to_multiset().insert(device));
        assert forall|a: int, b: int| 0 <= a < b < out.len() implies !lex_lt(
            #[trigger] out[b].name,
            #[trigger] out[a].name,
        ) by {
            if b == out.len() - 1 {
                let last = sorted.len() - 1;
                if a < last {
                    lemma_lex_lt_chain(sorted[a].name, sorted[last].name, device.name);
                }
            } else {
                assert(out[a] == sorted[a] && out[b] == sorted[b]);
            }
        }
    }
}

/// Sorting by name yields the same devices, each as often as before, in the order of their
/// names.
pub proof fn lemma_sort_by_name(devices: Seq<DeviceView>)
    ensures
        ordered_by_name(sort_by_name(devices)),
        sort_by_name(devices).to_multiset() == devices.to_multiset(),
        sort_by_name(devices).len() == devices.len(),
    decreases devices.len(),
{
    broadcast use vstd::seq_lib::group_to_multiset_ensures;

    if devices.len() > 0 {
        lemma_sort_by_name(devices.drop_last());
        lemma_insert_by_name(sort_by_name(devices.drop_last()), devices.last());
        assert(devices =~= devices.drop_last().push(devices.last()));
    }
}

/// The devices in the lexicographic order of their names.
pub fn sorted_devices(devices: &Vec<Device>) -> (r: Vec<Device>)
    ensures
        r.deep_view() == sort_by_name(devices.deep_view()),
{
    let ghost all = devices.deep_view();
    let mut out: Vec<Device> = Vec::new();
    let mut i: usize = 0;
    assert(out.deep_view() =~= sort_by_name(all.take(0)));
    while i < devices.len()
        invariant
            i <= devices.len(),
            all == devices.deep_view(),
            out.len() == i,
            out.deep_view() == sort_by_name(all.take(i as int)),
        decreases devices.len() - i,
    {
        let ghost sorted = out.deep_view();
        let device = devices[i].clone();
        let mut at: usize = out.len();
        while at > 0 && str_lt(device.name.as_str(), out[at - 1].name.as_str())
            invariant
                at <= out.len(),
                sorted == out.deep_view(),
                forall|k: int|
                    at <= k < sorted.len() ==> lex_lt(device.name@, #[trigger] sorted[k].name),
            decreases at,
        {
            at -= 1;
        }
        proof {
            lemma_insert_at(sorted, device@, at as int);
            assert(all.take(i + 1).drop_last() =~= all.take(i as int));
        }
        out.insert(at, device);
        assert(out.deep_view() =~= sorted.insert(at as int, device@));
        i += 1;
    }
    assert(all.take(devices.len() as int) =~= all);
    out
}

/// Two names of which neither comes before the other are one name.
pub proof fn lemma_lex_lt_total(a: Seq<char>, b: Seq<char>)
    requires
        !lex_lt(a, b),
        !lex_lt(b, a),
    ensures
        a == b,
    decreases a.len(),
{
    if a.len() > 0 && b.len() > 0 {
        lemma_lex_lt_total(a.drop_first(), b.drop_first());
        assert(a =~= seq![a[0]] + a.drop_first());
        assert(b =~= seq![b[0]] + b.drop_first());
    } else {
        assert(a =~= b);
    }
}

/// A name that comes before a second comes before every name that the second comes before.
pub proof fn lemma_lex_lt_transitive(a: Seq<char>, b: Seq<char>, c: Seq<char>)
    requires
        lex_lt(a, b),
        lex_lt(b, c),
    ensures
        lex_lt(a, c),
    decreases a.len(),
{
    if a.len() > 0 && b.len() > 0 && c.len() > 0 && a[0] == b[0] && b[0] == c[0] {
        lemma_lex_lt_transitive(a.drop_first(), b.drop_first(), c.drop_first());
    }
}

/// The order of devices by name and then by link.
spec fn device_le(a: DeviceView, b: DeviceView) -> bool {
    lex_lt(a.name, b.name) || (a.name == b.name && !lex_lt(b.link, a.link))
}

/// Devices are totally ordered by name and then by link.
proof fn lemma_device_le_total()
    ensures
        total_ordering(|a: DeviceView, b: DeviceView| device_le(a, b)),
{
    let le = |a: DeviceView, b: DeviceView| device_le(a, b);
    assert forall|x: DeviceView| #[trigger] le(x, x) by {
        if lex_lt(x.link, x.link) {
            lemma_lex_lt_asymmetric(x.link, x.link);
        }
    }
    assert forall|x: DeviceView, y: DeviceView| #[trigger] le(x, y) && #[trigger] le(y, x) implies x
        == y by {
        if lex_lt(x.name, y.name) {
            lemma_lex_lt_asymmetric(x.name, y.name);
        }
        if lex_lt(y.name, x.name) {
            lemma_lex_lt_asymmetric(y.name, x.name);
        }
        lemma_lex_lt_total(x.link, y.link);
    }
    assert forall|x: DeviceView, y: DeviceView, z: DeviceView| #[trigger]
        le(x, y) && #[trigger] le(y, z) implies le(x, z) by {
        if lex_lt(x.name, y.name) && lex_lt(y.name, z.name) {
            lemma_lex_lt_transitive(x.name, y.name, z.name);
        }
        if x.name == y.name && y.name == z.name {
            if lex_lt(x.name, x.name) {
                lemma_lex_lt_asymmetric(x.name, x.name);
            }
            lemma_lex_lt_chain(x.link, y.link, z.link);
        }
    }
    assert forall|x: DeviceView, y: DeviceView| #[trigger] le(x, y) || #[trigger] le(y, x) by {
        if !lex_lt(x.name, y.name) && !lex_lt(y.name, x.name) {
            lemma_lex_lt_total(x.name, y.name);
            if lex_lt(y.link, x.link) {
                lemma_lex_lt_asymmetric(y.link, x.link);
            }
        }
    }
}

/// The same devices in another order have different names too.
pub proof fn lemma_distinct_names_permuted(x: Seq<DeviceView>, y: Seq<DeviceView>)
    requires
        x.to_multiset() == y.to_multiset(),
        distinct_names(x),
    ensures
        distinct_names(y),
{
    broadcast use vstd::seq_lib::group_to_multiset_ensures;

    assert(x.no_duplicates());
    x.lemma_multiset_has_no_duplicates();
    assert forall|e: DeviceView| y.to_multiset().contains(e) implies y.to_multiset().count(e)
        == 1 by {}
    y.lemma_multiset_has_no_duplicates_conv();
    assert forall|a: int, b: int| 0 <= a < b < y.len() implies (#[trigger] y[a]).name != (
    #[trigger] y[b]).name by {
        assert(y.contains(y[a]) && y.contains(y[b]));
        assert(x.to_multiset().count(y[a]) > 0 && x.to_multiset().count(y[b]) > 0);
        assert(x.contains(y[a]) && x.contains(y[b]));
        let p = choose|p: int| 0 <= p < x.len() && x[p] == y[a];
        let q = choose|q: int| 0 <= q < x.len() && x[q] == y[b];
        assert(p != q);
    }
}

/// Devices of different names come out of the sort in one order, however they were listed.
pub proof fn lemma_sort_by_name_unique(x: Seq<DeviceView>, y: Seq<DeviceView>)
    requires
        x.to_multiset() == y.to_multiset(),
        distinct_names(x),
    ensures
        sort_by_name(x) == sort_by_name(y),
{
    let le = |a: DeviceView, b: DeviceView| device_le(a, b);
    let sx = sort_by_name(x);
    let sy = sort_by_name(y);
    lemma_sort_by_name(x);
    lemma_sort_by_name(y);
    lemma_distinct_names_permuted(x, sx);
    lemma_distinct_names_permuted(x, sy);
    lemma_device_le_total();
    assert forall|i: int, j: int| 0 <= i < j < sx.len() implies #[trigger] le(sx[i], sx[j]) by {
        if !lex_lt(sx[i].name, sx[j].name) {
            lemma_lex_lt_total(sx[i].name, sx[j].name);
        }
    }
    assert forall|i: int, j: int| 0 <= i < j < sy.len() implies #[trigger] le(sy[i], sy[j]) by {
        if !lex_lt(sy[i].name, sy[j].name) {
            lemma_lex_lt_total(sy[i].name, sy[j].name);
        }
    }
    vstd::seq_lib::lemma_sorted_unique(sx, sy, le);
}

} // verus!
