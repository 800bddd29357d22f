//! The host's list of paired phones. Every entry is a long-lived credential:
//! a phone on the list connects by its endpoint id without a code.
use vstd::prelude::*;

use crate::text::{chars_of, decimal, eq_range, push_decimal, push_str, string_of};

verus! {

broadcast use vstd::string::group_string_axioms;

/// One paired phone.
pub struct PairedDevice {
    pub id: String,
    pub name: String,
    pub paired_at: String,
}

/// The paired phones, in pairing order.
pub struct PairedStore {
    pub devices: Vec<PairedDevice>,
}

/// A paired phone as listed to the plugin, with whether it is connected now.
pub struct DeviceView {
    pub id: String,
    pub name: String,
    pub paired_at: String,
    pub online: bool,
}

/// Some device of `ds` has endpoint id `id`.
pub open spec fn has_device(ds: Seq<PairedDevice>, id: Seq<char>) -> bool {
    exists|i: int| 0 <= i < ds.len() && (#[trigger] ds[i]).id@ == id
}

/// The devices of `ds` whose id is not `id`, in their order.
pub open spec fn kept(ds: Seq<PairedDevice>, id: Seq<char>) -> Seq<PairedDevice>
    decreases ds.len(),
{
    if ds.len() == 0 {
        Seq::empty()
    } else {
        (if ds[0].id@ != id {
            seq![ds[0]]
        } else {
            Seq::empty()
        }) + kept(ds.drop_first(), id)
    }
}

/// `id` is one of the ids in `online`.
pub open spec fn is_online(online: Seq<String>, id: Seq<char>) -> bool {
    exists|j: int| 0 <= j < online.len() && (#[trigger] online[j])@ == id
}

/// The record of when a phone was paired: `unix:<seconds>`.
pub open spec fn paired_at_spec(secs: nat) -> Seq<char> {
    "unix:"@ + decimal(secs)
}

impl PairedStore {
    pub fn new() -> (s: Self)
        ensures
            s.devices@ == Seq::<PairedDevice>::empty(),
    {
        PairedStore { devices: Vec::new() }
    }

    /// Whether the host opens a pairing window as it starts: when asked to,
    /// or while no phone is paired yet.
    pub fn pairing_at_start(&self, force: bool) -> (r: bool)
        ensures
            r == (force || self.devices@.len() == 0),
    {
        force || self.devices.len() == 0
    }

    /// Whether the phone with endpoint id `id` is paired.
    pub fn is_paired(&self, id: &str) -> (r: bool)
        ensures
            r == has_device(self.devices@, id@),
    {
        let want = chars_of(id);
        let mut i: usize = 0;
        while i < self.devices.len()
            invariant
                i <= self.devices.len(),
                want@ == id@,
                forall|k: int| 0 <= k < i ==> (#[trigger] self.devices@[k]).id@ != id@,
            decreases self.devices.len() - i,
        {
            let have = chars_of(self.devices[i].id.as_str());
            if eq_range(&have, 0, have.len(), &want) {
                assert(have@.subrange(0, have.len() as int) =~= have@);
                assert(self.devices@[i as int].id@ == id@);
                return true;
            }
            assert(have@.subrange(0, have.len() as int) =~= have@);
            i = i + 1;
        }
        false
    }

    /// Records a newly paired phone at the end of the list.
    pub fn add(&mut self, device: PairedDevice)
        ensures
            final(self).devices@ == old(self).devices@.push(device),
    {
        self.devices.push(device);
    }

    /// Removes every entry of the phone with endpoint id `id`; the other
    /// entries keep their order.
    pub fn forget(&mut self, id: &str)
        ensures
            final(self).devices@ == kept(old(self).devices@, id@),
    {
        let ghost orig = self.devices@;
        let want = chars_of(id);
        let mut rest: Vec<PairedDevice> = Vec::new();
        std::mem::swap(&mut rest, &mut self.devices);
        let mut out: Vec<PairedDevice> = Vec::new();
        assert(out@ + rest@ =~= rest@);
        while rest.len() > 0
            invariant
                want@ == id@,
                out@ + kept(rest@, id@) == kept(orig, id@),
            decreases rest.len(),
        {
            let ghost before = rest@;
            let d = rest.remove(0);
            assert(rest@ =~= before.drop_first());
            let have = chars_of(d.id.as_str());
            let same = eq_range(&have, 0, have.len(), &want);
            assert(have@.subrange(0, have.len() as int) =~= have@);
            let ghost out_before = out@;
            if !same {
                out.push(d);
                assert(out@ + kept(rest@, id@) =~= out_before + (seq![before[0]] + kept(
                    rest@,
                    id@,
                )));
            } else {
                assert(out@ + kept(rest@, id@) =~= out_before + (Seq::<PairedDevice>::empty()
                    + kept(rest@, id@)));
            }
        }
        assert(out@ =~= kept(orig, id@));
        self.devices = out;
    }
}

/// Whether `id` is among `online`.
fn online_contains(online: &Vec<String>, id: &str) -> (r: bool)
    ensures
        r == is_online(online@, id@),
{
    let want = chars_of(id);
    let mut j: usize = 0;
    while j < online.len()
        invariant
            j <= online.len(),
            want@ == id@,
            forall|k: int| 0 <= k < j ==> (#[trigger] online@[k])@ != id@,
        decreases online.len() - j,
    {
        let have = chars_of(online[j].as_str());
        assert(have@.subrange(0, have.len() as int) =~= have@);
        if eq_range(&have, 0, have.len(), &want) {
            return true;
        }
        j = j + 1;
    }
    false
}

/// The full list of paired phones for the plugin, each marked online when
/// its id is among the connected ones.
pub fn device_views(store: &PairedStore, online: &Vec<String>) -> (views: Vec<DeviceView>)
    ensures
        views.len() == store.devices.len(),
        forall|i: int|
            0 <= i < views.len() ==> {
                &&& (#[trigger] views@[i]).id@ == store.devices@[i].id@
                &&& views@[i].name@ == store.devices@[i].name@
                &&& views@[i].paired_at@ == store.devices@[i].paired_at@
                &&& views@[i].online == is_online(online@, store.devices@[i].id@)
            },
{
    let mut views: Vec<DeviceView> = Vec::new();
    let mut i: usize = 0;
    while i < store.devices.len()
        invariant
            i <= store.devices.len(),
            views.len() == i,
            forall|k: int|
                0 <= k < i ==> {
                    &&& (#[trigger] views@[k]).id@ == store.devices@[k].id@
                    &&& views@[k].name@ == store.devices@[k].name@
                    &&& views@[k].paired_at@ == store.devices@[k].paired_at@
                    &&& views@[k].online == is_online(online@, store.devices@[k].id@)
                },
        decreases store.devices.len() - i,
    {
        let d = &store.devices[i];
        let online_now = online_contains(online, d.id.as_str());
        views.push(
            DeviceView {
                id: d.id.clone(),
                name: d.name.clone(),
                paired_at: d.paired_at.clone(),
                online: online_now,
            },
        );
        i = i + 1;
    }
    views
}

/// The pairing time recorded for a phone, from the seconds since the Unix
/// epoch: `unix:<seconds>`.
pub fn paired_at_stamp(secs: u64) -> (r: String)
    ensures
        r@ == paired_at_spec(secs as nat),
{
    let mut v: Vec<char> = Vec::new();
    push_str(&mut v, "unix:");
    push_decimal(&mut v, secs);
    string_of(&v)
}

// ---------------------------------------------------------------------------
// Laws
// ---------------------------------------------------------------------------

/// Law: a phone recorded when it pairs is paired from then on, so it
/// connects again by its endpoint id without a code; the phones paired
/// before stay paired.
pub proof fn law_recorded_phone_is_paired(ds: Seq<PairedDevice>, d: PairedDevice)
    ensures
        has_device(ds.push(d), d.id@),
        forall|other: Seq<char>| has_device(ds, other) ==> has_device(ds.push(d), other),
{
    let n = ds.push(d);
    assert(n[ds.len() as int] == d);
    assert forall|other: Seq<char>| has_device(ds, other) implies has_device(n, other) by {
        let i = choose|i: int| 0 <= i < ds.len() && (#[trigger] ds[i]).id@ == other;
        assert(n[i] == ds[i]);
    }
}

/// Law: once a phone is forgotten it is no longer paired, every other entry
/// stays, in its order, and forgetting it again changes nothing.
pub proof fn law_forget(ds: Seq<PairedDevice>, id: Seq<char>)
    ensures
        !has_device(kept(ds, id), id),
        forall|other: Seq<char>| other != id ==> (has_device(kept(ds, id), other) <==> has_device(ds, other)),
        kept(kept(ds, id), id) == kept(ds, id),
    decreases ds.len(),
{
    if ds.len() > 0 {
        let rest = ds.drop_first();
        law_forget(rest, id);
        let head: Seq<PairedDevice> = if ds[0].id@ != id {
            seq![ds[0]]
        } else {
            Seq::empty()
        };
        let k = kept(ds, id);
        assert(k == head + kept(rest, id));
        assert(!has_device(k, id)) by {
            if has_device(k, id) {
                let i = choose|i: int| 0 <= i < k.len() && (#[trigger] k[i]).id@ == id;
                if i >= head.len() {
                    assert(kept(rest, id)[i - head.len()] == k[i]);
                }
            }
        }
        assert forall|other: Seq<char>| other != id implies (has_device(k, other) <==> has_device(
            ds,
            other,
        )) by {
            if has_device(k, other) {
                let i = choose|i: int| 0 <= i < k.len() && (#[trigger] k[i]).id@ == other;
                if i < head.len() {
                    assert(ds[0] == k[i]);
                } else {
                    assert(kept(rest, id)[i - head.len()] == k[i]);
                    assert(has_device(kept(rest, id), other));
                    assert(has_device(rest, other));
                    let j = choose|j: int| 0 <= j < rest.len() && (#[trigger] rest[j]).id@ == other;
                    assert(ds[j + 1] == rest[j]);
                    assert(has_device(ds, other));
                }
            }
            if has_device(ds, other) {
                let i = choose|i: int| 0 <= i < ds.len() && (#[trigger] ds[i]).id@ == other;
                if i == 0 {
                    assert(k[0] == ds[0]);
                } else {
                    assert(rest[i - 1] == ds[i]);
                    assert(has_device(rest, other));
                    assert(has_device(kept(rest, id), other));
                    let j = choose|j: int|
                        0 <= j < kept(rest, id).len() && (#[trigger] kept(rest, id)[j]).id@ == other;
                    assert(k[j + head.len()] == kept(rest, id)[j]);
                    assert(has_device(k, other));
                }
            }
        }
        if ds[0].id@ != id {
            assert(k.drop_first() =~= kept(rest, id));
            assert(k[0] == ds[0]);
        } else {
            assert(k =~= kept(rest, id));
        }
    }
}

/// The devices whose endpoint id is not `id`.
pub open spec fn other_than(id: Seq<char>) -> spec_fn(PairedDevice) -> bool {
    |d: PairedDevice| d.id@ != id
}

/// Law: forgetting a phone leaves exactly the original list with that
/// phone's entries filtered out; every other entry is kept as it was (id,
/// name and pairing time), in its order.
pub proof fn law_forget_is_filter(ds: Seq<PairedDevice>, id: Seq<char>)
    ensures
        kept(ds, id) == ds.filter(other_than(id)),
    decreases ds.len(),
{
    let pred = other_than(id);
    reveal_with_fuel(Seq::<PairedDevice>::filter, 2);
    if ds.len() == 0 {
        assert(ds.filter(pred) =~= Seq::<PairedDevice>::empty());
    } else {
        let rest = ds.drop_first();
        law_forget_is_filter(rest, id);
        let one = seq![ds[0]];
        assert(ds =~= one + rest);
        Seq::filter_distributes_over_add(one, rest, pred);
        assert(one.drop_last() =~= Seq::<PairedDevice>::empty());
        assert(one.drop_last().filter(pred) =~= Seq::<PairedDevice>::empty());
        assert(one.last() == ds[0]);
        if pred(ds[0]) {
            assert(one.filter(pred) =~= one);
        } else {
            assert(one.filter(pred) =~= Seq::<PairedDevice>::empty());
        }
    }
}

} // verus!
