//! Audio device logic of the control panel's volume widget: which devices
//! the selectors offer, how their descriptions are shortened, and which
//! notifications a change in the device set raises.

use vstd::prelude::*;
use crate::audio::{glob_matches, matches_glob};
use crate::model::string_eq;
use crate::text::{chars_of, string_of, find_from, find_chars, contains, contains_chars, lowercase, to_lowercase};

verus! {

broadcast use vstd::seq::group_seq_axioms;

/// An audio device: its PulseAudio name and description.
pub struct DeviceInfo {
    pub name: String,
    pub description: String,
}

pub open spec fn devs_view(v: Seq<DeviceInfo>) -> Seq<(Seq<char>, Seq<char>)> {
    v.map_values(|d: DeviceInfo| (d.name@, d.description@))
}

/// A description without its chipset prefix: everything up to and
/// including the first ` cAVS ` is dropped.
pub open spec fn simplified(desc: Seq<char>) -> Seq<char> {
    match find_from(desc, " cAVS "@, 0) {
        Some(i) => desc.skip(i + 6),
        None => desc,
    }
}

/// Strips the chipset prefix from a device description, e.g.
/// "Raptor Lake-P/U/H cAVS Speaker + Headphones" becomes
/// "Speaker + Headphones".
pub fn simplify_device_description(desc: &str) -> (r: String)
    ensures
        r@ == simplified(desc@),
{
    let d = chars_of(desc);
    let pat = chars_of(" cAVS ");
    match find_chars(d.as_slice(), pat.as_slice(), 0) {
        Some(i) => {
            proof {
                reveal_strlit(" cAVS ");
                crate::text::lemma_find_from(d@, pat@, 0);
                assert(crate::text::occurs_at(d@, pat@, i as int));
                assert(d@.len() == d.len());
            }
            let r = string_of(vstd::slice::slice_subrange(d.as_slice(), i + 6, d.len()));
            proof { assert(r@ =~= d@.skip(i + 6)); }
            r
        },
        None => string_of(d.as_slice()),
    }
}

/// Whether a device with this name is already in `acc`.
pub open spec fn has_dev(acc: Seq<(Seq<char>, Seq<char>)>, name: Seq<char>) -> bool {
    exists|i: int| 0 <= i < acc.len() && #[trigger] acc[i].0 == name
}

/// `acc` extended by the devices matching `pat`, in order, names not repeated.
pub open spec fn pick_devs(acc: Seq<(Seq<char>, Seq<char>)>, devs: Seq<(Seq<char>, Seq<char>)>, pat: Seq<char>)
    -> Seq<(Seq<char>, Seq<char>)>
    decreases devs.len(),
{
    if devs.len() == 0 {
        acc
    } else {
        let d = devs[0];
        let acc1 = if glob_matches(d.0, pat) && !has_dev(acc, d.0) { acc.push(d) } else { acc };
        pick_devs(acc1, devs.drop_first(), pat)
    }
}

/// The devices matching the preferred patterns, pattern by pattern.
pub open spec fn prefer_devs(acc: Seq<(Seq<char>, Seq<char>)>, devs: Seq<(Seq<char>, Seq<char>)>, pats: Seq<Seq<char>>)
    -> Seq<(Seq<char>, Seq<char>)>
    decreases pats.len(),
{
    if pats.len() == 0 { acc } else { prefer_devs(pick_devs(acc, devs, pats[0]), devs, pats.drop_first()) }
}

/// Whether a name matches one of the patterns.
pub open spec fn any_glob(name: Seq<char>, pats: Seq<Seq<char>>) -> bool {
    exists|i: int| 0 <= i < pats.len() && glob_matches(name, #[trigger] pats[i])
}

/// The devices that match none of the excluded patterns.
pub open spec fn exclude_devs(devs: Seq<(Seq<char>, Seq<char>)>, pats: Seq<Seq<char>>) -> Seq<(Seq<char>, Seq<char>)>
    decreases devs.len(),
{
    if devs.len() == 0 {
        Seq::empty()
    } else {
        let r = exclude_devs(devs.drop_last(), pats);
        if any_glob(devs.last().0, pats) { r } else { r.push(devs.last()) }
    }
}

/// The devices offered: those matching a preferred pattern when any are
/// configured, else all but the excluded ones.
pub open spec fn filtered_devs(devs: Seq<(Seq<char>, Seq<char>)>, preferred: Seq<Seq<char>>, excluded: Seq<Seq<char>>)
    -> Seq<(Seq<char>, Seq<char>)> {
    if preferred.len() > 0 {
        prefer_devs(Seq::empty(), devs, preferred)
    } else if excluded.len() > 0 {
        exclude_devs(devs, excluded)
    } else {
        devs
    }
}

fn copy_dev(d: &DeviceInfo) -> (r: DeviceInfo)
    ensures
        r.name@ == d.name@,
        r.description@ == d.description@,
{
    DeviceInfo { name: d.name.clone(), description: d.description.clone() }
}

fn has_dev_exec(acc: &Vec<DeviceInfo>, name: &String) -> (r: bool)
    ensures
        r == has_dev(devs_view(acc@), name@),
{
    let mut i: usize = 0;
    while i < acc.len()
        invariant
            i <= acc@.len(),
            forall|j: int| 0 <= j < i ==> acc@[j].name@ != name@,
        decreases acc@.len() - i,
    {
        if string_eq(&acc[i].name, name) {
            proof { assert(devs_view(acc@)[i as int].0 == name@); }
            return true;
        }
        i += 1;
    }
    proof {
        if has_dev(devs_view(acc@), name@) {
            let j = choose|j: int| 0 <= j < devs_view(acc@).len() && #[trigger] devs_view(acc@)[j].0 == name@;
            assert(acc@[j].name@ == name@);
        }
    }
    false
}

fn pick_devs_exec(result: &mut Vec<DeviceInfo>, devices: &Vec<DeviceInfo>, pattern: &String)
    ensures
        devs_view(final(result)@) == pick_devs(devs_view(old(result)@), devs_view(devices@), pattern@),
{
    let ghost dv = devs_view(devices@);
    let mut i: usize = 0;
    proof { assert(dv.skip(0) =~= dv); }
    while i < devices.len()
        invariant
            i <= devices@.len(),
            dv == devs_view(devices@),
            pick_devs(devs_view(old(result)@), dv, pattern@) == pick_devs(devs_view(result@), dv.skip(i as int), pattern@),
        decreases devices@.len() - i,
    {
        proof {
            assert(dv.skip(i as int)[0] == dv[i as int]);
            assert(dv.skip(i as int).drop_first() =~= dv.skip(i + 1));
        }
        let d = &devices[i];
        if matches_glob(d.name.as_str(), pattern.as_str()) && !has_dev_exec(result, &d.name) {
            let ghost before = devs_view(result@);
            result.push(copy_dev(d));
            proof { assert(devs_view(result@) =~= before.push(dv[i as int])); }
        }
        i += 1;
    }
    proof { assert(dv.skip(i as int) =~= Seq::<(Seq<char>, Seq<char>)>::empty()); }
}

fn any_glob_exec(name: &String, pats: &[String]) -> (r: bool)
    ensures
        r == any_glob(name@, pats@.map_values(|s: String| s@)),
{
    let ghost pv = pats@.map_values(|s: String| s@);
    let mut i: usize = 0;
    while i < pats.len()
        invariant
            i <= pats@.len(),
            pv == pats@.map_values(|s: String| s@),
            forall|j: int| 0 <= j < i ==> !glob_matches(name@, #[trigger] pv[j]),
        decreases pats@.len() - i,
    {
        if matches_glob(name.as_str(), pats[i].as_str()) {
            proof { assert(glob_matches(name@, pv[i as int])); }
            return true;
        }
        i += 1;
    }
    false
}

/// The devices to offer under the preferred and excluded patterns.
pub fn filter_devices(devices: Vec<DeviceInfo>, preferred: &[String], excluded: &[String]) -> (r: Vec<DeviceInfo>)
    ensures
        devs_view(r@) == filtered_devs(devs_view(devices@), preferred@.map_values(|s: String| s@),
            excluded@.map_values(|s: String| s@)),
{
    let ghost dv = devs_view(devices@);
    let ghost pv = preferred@.map_values(|s: String| s@);
    let ghost ev = excluded@.map_values(|s: String| s@);
    if preferred.len() > 0 {
        let mut result: Vec<DeviceInfo> = Vec::new();
        let mut k: usize = 0;
        proof {
            assert(devs_view(result@) =~= Seq::<(Seq<char>, Seq<char>)>::empty());
            assert(pv.skip(0) =~= pv);
        }
        while k < preferred.len()
            invariant
                k <= preferred@.len(),
                dv == devs_view(devices@),
                pv == preferred@.map_values(|s: String| s@),
                prefer_devs(Seq::empty(), dv, pv) == prefer_devs(devs_view(result@), dv, pv.skip(k as int)),
            decreases preferred@.len() - k,
        {
            proof {
                assert(pv.skip(k as int)[0] == preferred@[k as int]@);
                assert(pv.skip(k as int).drop_first() =~= pv.skip(k + 1));
            }
            pick_devs_exec(&mut result, &devices, &preferred[k]);
            k += 1;
        }
        proof { assert(pv.skip(k as int) =~= Seq::<Seq<char>>::empty()); }
        result
    } else if excluded.len() > 0 {
        let mut result: Vec<DeviceInfo> = Vec::new();
        let mut i: usize = 0;
        while i < devices.len()
            invariant
                i <= devices@.len(),
                dv == devs_view(devices@),
                ev == excluded@.map_values(|s: String| s@),
                devs_view(result@) == exclude_devs(dv.take(i as int), ev),
            decreases devices@.len() - i,
        {
            proof {
                assert(dv.take(i + 1).drop_last() =~= dv.take(i as int));
                assert(dv.take(i + 1).last() == dv[i as int]);
            }
            if !any_glob_exec(&devices[i].name, excluded) {
                let ghost before = devs_view(result@);
                result.push(copy_dev(&devices[i]));
                proof { assert(devs_view(result@) =~= before.push(dv[i as int])); }
            }
            i += 1;
        }
        proof { assert(dv.take(i as int) =~= dv); }
        result
    } else {
        devices
    }
}

/// The devices whose name does not contain `.monitor`.
pub open spec fn non_monitors(devs: Seq<(Seq<char>, Seq<char>)>) -> Seq<(Seq<char>, Seq<char>)>
    decreases devs.len(),
{
    if devs.len() == 0 {
        Seq::empty()
    } else {
        let r = non_monitors(devs.drop_last());
        if contains(devs.last().0, ".monitor"@) { r } else { r.push(devs.last()) }
    }
}

/// Drops the monitor sources (names containing `.monitor`).
pub fn without_monitors(devices: Vec<DeviceInfo>) -> (r: Vec<DeviceInfo>)
    ensures
        devs_view(r@) == non_monitors(devs_view(devices@)),
{
    let ghost dv = devs_view(devices@);
    let pat = chars_of(".monitor");
    let mut result: Vec<DeviceInfo> = Vec::new();
    let mut i: usize = 0;
    while i < devices.len()
        invariant
            i <= devices@.len(),
            dv == devs_view(devices@),
            pat@ == ".monitor"@,
            devs_view(result@) == non_monitors(dv.take(i as int)),
        decreases devices@.len() - i,
    {
        proof {
            assert(dv.take(i + 1).drop_last() =~= dv.take(i as int));
            assert(dv.take(i + 1).last() == dv[i as int]);
        }
        if !contains_chars(chars_of(devices[i].name.as_str()).as_slice(), pat.as_slice()) {
            let ghost before = devs_view(result@);
            result.push(copy_dev(&devices[i]));
            proof { assert(devs_view(result@) =~= before.push(dv[i as int])); }
        }
        i += 1;
    }
    proof { assert(dv.take(i as int) =~= dv); }
    result
}

/// The sinks and sources present at one moment, name and description,
/// each name once (see `DeviceSnapshot::wf`).
pub struct DeviceSnapshot {
    pub sinks: Vec<DeviceInfo>,
    pub sources: Vec<DeviceInfo>,
}

/// No name occurs twice.
pub open spec fn names_unique(d: Seq<(Seq<char>, Seq<char>)>) -> bool {
    forall|i: int, j: int| 0 <= i < j < d.len() ==> #[trigger] d[i].0 != #[trigger] d[j].0
}

/// `r` with the entry named like `d` taking `d`'s description.
pub open spec fn replace_named(r: Seq<(Seq<char>, Seq<char>)>, d: (Seq<char>, Seq<char>)) -> Seq<(Seq<char>, Seq<char>)> {
    Seq::new(r.len(), |k: int| if r[k].0 == d.0 { d } else { r[k] })
}

/// Devices collected by name: each name once, where it first occurs, with
/// the description it last had.
pub open spec fn keyed(s: Seq<(Seq<char>, Seq<char>)>) -> Seq<(Seq<char>, Seq<char>)>
    decreases s.len(),
{
    if s.len() == 0 {
        Seq::empty()
    } else {
        let r = keyed(s.drop_last());
        let d = s.last();
        if has_dev(r, d.0) { replace_named(r, d) } else { r.push(d) }
    }
}

/// Collecting by name leaves each name once, and the same names.
pub proof fn lemma_keyed(s: Seq<(Seq<char>, Seq<char>)>)
    ensures
        names_unique(keyed(s)),
        forall|n: Seq<char>| has_dev(keyed(s), n) == has_dev(s, n),
    decreases s.len(),
{
    if s.len() > 0 {
        let t = s.drop_last();
        lemma_keyed(t);
        let r = keyed(t);
        let d = s.last();
        let k = keyed(s);
        assert forall|n: Seq<char>| has_dev(k, n) == has_dev(s, n) by {
            if has_dev(k, n) {
                let i = choose|i: int| 0 <= i < k.len() && #[trigger] k[i].0 == n;
                if has_dev(r, d.0) {
                    if r[i].0 == d.0 {
                        assert(s[s.len() - 1].0 == n);
                    } else {
                        assert(r[i].0 == n);
                        assert(has_dev(r, n));
                        assert(has_dev(t, n));
                        let j = choose|j: int| 0 <= j < t.len() && #[trigger] t[j].0 == n;
                        assert(s[j].0 == n);
                    }
                } else if i == r.len() {
                    assert(s[s.len() - 1].0 == n);
                } else {
                    assert(k[i] == r[i]);
                    assert(r[i].0 == n);
                    assert(has_dev(r, n));
                    assert(has_dev(t, n));
                    let j = choose|j: int| 0 <= j < t.len() && #[trigger] t[j].0 == n;
                    assert(s[j].0 == n);
                }
            }
            if has_dev(s, n) {
                let j = choose|j: int| 0 <= j < s.len() && #[trigger] s[j].0 == n;
                if j == s.len() - 1 {
                    if has_dev(r, d.0) {
                        let i = choose|i: int| 0 <= i < r.len() && #[trigger] r[i].0 == d.0;
                        assert(k[i].0 == n);
                    } else {
                        assert(k[r.len() as int].0 == n);
                    }
                } else {
                    assert(t[j].0 == n);
                    assert(has_dev(t, n));
                    let i = choose|i: int| 0 <= i < r.len() && #[trigger] r[i].0 == n;
                    if has_dev(r, d.0) {
                        assert(k[i].0 == n);
                    } else {
                        assert(k[i] == r[i]);
                    }
                }
            }
        }
        assert forall|i: int, j: int| 0 <= i < j < k.len() implies #[trigger] k[i].0 != #[trigger] k[j].0 by {
            if has_dev(r, d.0) {
                assert(k[i].0 == r[i].0);
                assert(k[j].0 == r[j].0);
            } else if j == r.len() {
                assert(k[i] == r[i]);
                assert(r[i].0 != d.0);
            } else {
                assert(k[i] == r[i] && k[j] == r[j]);
            }
        }
    }
}

/// Collects devices by name, as a map from name to description would.
fn keyed_devices(devs: &Vec<DeviceInfo>) -> (r: Vec<DeviceInfo>)
    ensures
        devs_view(r@) == keyed(devs_view(devs@)),
{
    let ghost dv = devs_view(devs@);
    let mut out: Vec<DeviceInfo> = Vec::new();
    let mut i: usize = 0;
    while i < devs.len()
        invariant
            i <= devs@.len(),
            dv == devs_view(devs@),
            devs_view(out@) == keyed(dv.take(i as int)),
        decreases devs@.len() - i,
    {
        proof {
            assert(dv.take(i + 1).drop_last() =~= dv.take(i as int));
            assert(dv.take(i + 1).last() == dv[i as int]);
            lemma_keyed(dv.take(i as int));
        }
        let ghost before = devs_view(out@);
        let d = &devs[i];
        let mut pos: Option<usize> = None;
        let mut k: usize = 0;
        while k < out.len()
            invariant
                k <= out@.len(),
                before == devs_view(out@),
                (match pos {
                    Some(p) => p < out@.len() && out@[p as int].name@ == d.name@,
                    None => forall|j: int| 0 <= j < k ==> out@[j].name@ != d.name@,
                }),
            decreases out@.len() - k,
        {
            if pos.is_none() && string_eq(&out[k].name, &d.name) {
                pos = Some(k);
            }
            k += 1;
        }
        if let Some(p) = pos {
            proof {
                assert(before[p as int].0 == d.name@);
                assert(has_dev(before, d.name@));
                assert(names_unique(before));
            }
            out.set(p, copy_dev(d));
            proof {
                assert forall|j: int| 0 <= j < before.len() && j != p implies before[j].0 != d.name@ by {
                    if j < p {
                        assert(before[j].0 != before[p as int].0);
                    } else {
                        assert(before[p as int].0 != before[j].0);
                    }
                }
                assert(devs_view(out@) =~= replace_named(before, dv[i as int]));
            }
        } else {
            proof {
                assert(!has_dev(before, d.name@)) by {
                    if has_dev(before, d.name@) {
                        let j = choose|j: int| 0 <= j < before.len() && #[trigger] before[j].0 == d.name@;
                        assert(out@[j].name@ == d.name@);
                    }
                }
            }
            out.push(copy_dev(d));
            proof { assert(devs_view(out@) =~= before.push(dv[i as int])); }
        }
        i += 1;
    }
    proof { assert(dv.take(i as int) =~= dv); }
    out
}

impl DeviceSnapshot {
    /// Each name occurs once among the sinks and once among the sources.
    pub open spec fn wf(&self) -> bool {
        names_unique(devs_view(self.sinks@)) && names_unique(devs_view(self.sources@))
    }

    /// The snapshot of the listed sinks and sources, collected by name.
    pub fn new(sinks: &Vec<DeviceInfo>, sources: &Vec<DeviceInfo>) -> (r: Self)
        ensures
            r.wf(),
            devs_view(r.sinks@) == keyed(devs_view(sinks@)),
            devs_view(r.sources@) == keyed(devs_view(sources@)),
    {
        let s = keyed_devices(sinks);
        let m = keyed_devices(sources);
        proof {
            lemma_keyed(devs_view(sinks@));
            lemma_keyed(devs_view(sources@));
        }
        DeviceSnapshot { sinks: s, sources: m }
    }
}

/// `(summary, body)` of a desktop notification.
pub open spec fn note(summary: Seq<char>, body: Seq<char>) -> (Seq<char>, Seq<char>) {
    (summary, body)
}

/// Notifications for the devices of `cur` absent from `prev`; for sources
/// with "headset" in the description also the headset one.
pub open spec fn added_notes(prev: Seq<(Seq<char>, Seq<char>)>, cur: Seq<(Seq<char>, Seq<char>)>, headset: bool)
    -> Seq<(Seq<char>, Seq<char>)>
    decreases cur.len(),
{
    if cur.len() == 0 {
        Seq::empty()
    } else {
        let r = added_notes(prev, cur.drop_last(), headset);
        let d = cur.last();
        if has_dev(prev, d.0) {
            r
        } else if headset && contains(lowercase(d.1), "headset"@) {
            r.push(note("Audio Device Connected"@, d.1)).push(note("Headset Microphone Detected"@, d.1))
        } else {
            r.push(note("Audio Device Connected"@, d.1))
        }
    }
}

/// Notifications for the devices of `prev` absent from `cur`.
pub open spec fn removed_notes(prev: Seq<(Seq<char>, Seq<char>)>, cur: Seq<(Seq<char>, Seq<char>)>)
    -> Seq<(Seq<char>, Seq<char>)>
    decreases prev.len(),
{
    if prev.len() == 0 {
        Seq::empty()
    } else {
        let r = removed_notes(prev.drop_last(), cur);
        let d = prev.last();
        if has_dev(cur, d.0) { r } else { r.push(note("Audio Device Disconnected"@, d.1)) }
    }
}

/// All notifications for a change of devices: added sinks, removed sinks,
/// added sources, removed sources.
pub open spec fn change_notes(ps: Seq<(Seq<char>, Seq<char>)>, pr: Seq<(Seq<char>, Seq<char>)>,
    cs: Seq<(Seq<char>, Seq<char>)>, cr: Seq<(Seq<char>, Seq<char>)>) -> Seq<(Seq<char>, Seq<char>)> {
    added_notes(ps, cs, false) + removed_notes(ps, cs) + added_notes(pr, cr, true) + removed_notes(pr, cr)
}

pub open spec fn notes_view(v: Seq<(String, String)>) -> Seq<(Seq<char>, Seq<char>)> {
    v.map_values(|p: (String, String)| (p.0@, p.1@))
}

fn push_note(out: &mut Vec<(String, String)>, summary: &str, body: &String)
    ensures
        notes_view(final(out)@) == notes_view(old(out)@).push(note(summary@, body@)),
{
    let ghost before = notes_view(out@);
    out.push((summary.to_string(), body.clone()));
    proof { assert(notes_view(out@) =~= before.push(note(summary@, body@))); }
}

fn push_added(out: &mut Vec<(String, String)>, prev: &Vec<DeviceInfo>, cur: &Vec<DeviceInfo>, headset: bool)
    ensures
        notes_view(final(out)@) == notes_view(old(out)@) + added_notes(devs_view(prev@), devs_view(cur@), headset),
{
    let ghost o0 = notes_view(out@);
    let ghost cv = devs_view(cur@);
    let word = chars_of("headset");
    let mut i: usize = 0;
    while i < cur.len()
        invariant
            i <= cur@.len(),
            cv == devs_view(cur@),
            word@ == "headset"@,
            notes_view(out@) == o0 + added_notes(devs_view(prev@), cv.take(i as int), headset),
        decreases cur@.len() - i,
    {
        proof {
            assert(cv.take(i + 1).drop_last() =~= cv.take(i as int));
            assert(cv.take(i + 1).last() == cv[i as int]);
        }
        let d = &cur[i];
        if !has_dev_exec(prev, &d.name) {
            push_note(out, "Audio Device Connected", &d.description);
            if headset && contains_chars(chars_of(to_lowercase(d.description.as_str()).as_str()).as_slice(), word.as_slice()) {
                push_note(out, "Headset Microphone Detected", &d.description);
            }
        }
        i += 1;
        proof { assert(notes_view(out@) =~= o0 + added_notes(devs_view(prev@), cv.take(i as int), headset)); }
    }
    proof { assert(cv.take(i as int) =~= cv); }
}

fn push_removed(out: &mut Vec<(String, String)>, prev: &Vec<DeviceInfo>, cur: &Vec<DeviceInfo>)
    ensures
        notes_view(final(out)@) == notes_view(old(out)@) + removed_notes(devs_view(prev@), devs_view(cur@)),
{
    let ghost o0 = notes_view(out@);
    let ghost pv = devs_view(prev@);
    let mut i: usize = 0;
    while i < prev.len()
        invariant
            i <= prev@.len(),
            pv == devs_view(prev@),
            notes_view(out@) == o0 + removed_notes(pv.take(i as int), devs_view(cur@)),
        decreases prev@.len() - i,
    {
        proof {
            assert(pv.take(i + 1).drop_last() =~= pv.take(i as int));
            assert(pv.take(i + 1).last() == pv[i as int]);
        }
        let d = &prev[i];
        if !has_dev_exec(cur, &d.name) {
            push_note(out, "Audio Device Disconnected", &d.description);
        }
        i += 1;
        proof { assert(notes_view(out@) =~= o0 + removed_notes(pv.take(i as int), devs_view(cur@))); }
    }
    proof { assert(pv.take(i as int) =~= pv); }
}

/// The notifications, `(summary, body)`, for a change from `prev` to
/// `current`.
pub fn process_device_changes(prev: &DeviceSnapshot, current: &DeviceSnapshot) -> (r: Vec<(String, String)>)
    requires
        prev.wf(),
        current.wf(),
    ensures
        notes_view(r@) == change_notes(devs_view(prev.sinks@), devs_view(prev.sources@),
            devs_view(current.sinks@), devs_view(current.sources@)),
{
    let mut out: Vec<(String, String)> = Vec::new();
    proof { assert(notes_view(out@) =~= Seq::<(Seq<char>, Seq<char>)>::empty()); }
    push_added(&mut out, &prev.sinks, &current.sinks, false);
    push_removed(&mut out, &prev.sinks, &current.sinks);
    push_added(&mut out, &prev.sources, &current.sources, true);
    push_removed(&mut out, &prev.sources, &current.sources);
    proof {
        assert(notes_view(out@) =~= change_notes(devs_view(prev.sinks@), devs_view(prev.sources@),
            devs_view(current.sinks@), devs_view(current.sources@)));
    }
    out
}

/// No change, no notification.
pub proof fn lemma_no_change_no_notes(sinks: Seq<(Seq<char>, Seq<char>)>, sources: Seq<(Seq<char>, Seq<char>)>)
    ensures
        change_notes(sinks, sources, sinks, sources).len() == 0,
{
    assert forall|i: int| 0 <= i < sinks.len() implies has_dev(sinks, #[trigger] sinks[i].0) by {
        assert(sinks[i].0 == sinks[i].0);
    }
    assert forall|i: int| 0 <= i < sources.len() implies has_dev(sources, #[trigger] sources[i].0) by {
        assert(sources[i].0 == sources[i].0);
    }
    lemma_added_same(sinks, sinks, false);
    lemma_added_same(sources, sources, true);
    lemma_removed_same(sinks, sinks);
    lemma_removed_same(sources, sources);
}

proof fn lemma_added_same(prev: Seq<(Seq<char>, Seq<char>)>, cur: Seq<(Seq<char>, Seq<char>)>, headset: bool)
    requires
        forall|i: int| 0 <= i < cur.len() ==> has_dev(prev, #[trigger] cur[i].0),
    ensures
        added_notes(prev, cur, headset).len() == 0,
    decreases cur.len(),
{
    if cur.len() > 0 {
        let t = cur.drop_last();
        assert forall|i: int| 0 <= i < t.len() implies has_dev(prev, #[trigger] t[i].0) by {
            assert(t[i] == cur[i]);
        }
        lemma_added_same(prev, t, headset);
        assert(has_dev(prev, cur[cur.len() - 1].0));
    }
}

proof fn lemma_removed_same(prev: Seq<(Seq<char>, Seq<char>)>, cur: Seq<(Seq<char>, Seq<char>)>)
    requires
        forall|i: int| 0 <= i < prev.len() ==> has_dev(cur, #[trigger] prev[i].0),
    ensures
        removed_notes(prev, cur).len() == 0,
    decreases prev.len(),
{
    if prev.len() > 0 {
        let t = prev.drop_last();
        assert forall|i: int| 0 <= i < t.len() implies has_dev(cur, #[trigger] t[i].0) by {
            assert(t[i] == prev[i]);
        }
        lemma_removed_same(t, cur);
        assert(has_dev(cur, prev[prev.len() - 1].0));
    }
}

/// The position of the first device named `name`.
pub open spec fn position_of(devs: Seq<(Seq<char>, Seq<char>)>, name: Seq<char>) -> Option<int>
    decreases devs.len(),
{
    if devs.len() == 0 {
        None
    } else if devs[0].0 == name {
        Some(0)
    } else {
        match position_of(devs.drop_first(), name) {
            Some(i) => Some(i + 1),
            None => None,
        }
    }
}

/// Where the default device sits in the offered list (the dropdown's
/// selection), if it is offered.
pub fn device_position(devices: &[DeviceInfo], name: &str) -> (r: Option<usize>)
    ensures
        (match r {
            Some(i) => position_of(devs_view(devices@), name@) == Some(i as int),
            None => position_of(devs_view(devices@), name@) is None,
        }),
{
    let ghost dv = devs_view(devices@);
    let want = chars_of(name);
    let mut i: usize = 0;
    proof { assert(dv.skip(0) =~= dv); }
    while i < devices.len()
        invariant
            i <= devices@.len(),
            dv == devs_view(devices@),
            want@ == name@,
            position_of(dv, name@) == (match position_of(dv.skip(i as int), name@) {
                Some(k) => Some(k + i),
                None => None,
            }),
        decreases devices@.len() - i,
    {
        proof { assert(dv.skip(i as int).drop_first() =~= dv.skip(i + 1)); }
        if crate::text::chars_eq(chars_of(devices[i].name.as_str()).as_slice(), want.as_slice()) {
            return Some(i);
        }
        i += 1;
    }
    None
}

} // verus!
