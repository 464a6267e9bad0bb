//! The list of nearby networks that can be joined, from
//! `nmcli -t -f IN-USE,SSID,SIGNAL dev wifi list`.
//!
//! Each line is `IN-USE:SSID:SIGNAL` in terse form (a `:` inside an SSID is
//! escaped).  A line marked `*` is the network in use, and its SSID is not
//! listed.  Otherwise an SSID is listed once when some line names it with a
//! signal of at least 35, at its strongest signal; the list is ordered
//! strongest first.  A line that cannot be read is skipped.
use vstd::prelude::*;
use crate::command::{decode_lossy, prefixed, utf8_lossy, CommandOutput};
use crate::text::{
    char_vec, line_ranges, lines, parse_u8, parse_u8_range, ranges_of, str_eq,
    terse_field_strings, terse_fields, views,
};
use crate::window::{display_avail_networks, Window};

verus! {

/// The weakest signal that the list keeps.
pub const MIN_SIGNAL: u8 = 35;

/// The line names a network with a signal the list keeps: it has a
/// non-empty SSID and a signal field that is a `u8` of at least 35.
pub open spec fn heard_line(line: Seq<char>) -> bool {
    let f = terse_fields(line);
    &&& f.len() >= 3
    &&& f[1].len() > 0
    &&& parse_u8(f[2]) matches Some(sig) && sig >= MIN_SIGNAL
}

/// The line names a network and marks it as the one in use (`*`), whatever
/// its signal.
pub open spec fn marks_in_use(line: Seq<char>) -> bool {
    let f = terse_fields(line);
    &&& f.len() >= 2
    &&& f[1].len() > 0
    &&& f[0] == "*"@
}

/// The SSID field of a line.
pub open spec fn line_ssid(line: Seq<char>) -> Seq<char> {
    terse_fields(line)[1]
}

/// The signal of a line.
pub open spec fn line_signal(line: Seq<char>) -> u8 {
    parse_u8(terse_fields(line)[2])->0
}

/// Some line of `ls` names `ssid` with a signal the list keeps.
pub open spec fn heard(ls: Seq<Seq<char>>, ssid: Seq<char>) -> bool {
    exists|i: int| 0 <= i < ls.len() && heard_line(#[trigger] ls[i]) && line_ssid(ls[i]) == ssid
}

/// Some line of `ls` marks `ssid` as the network in use.
pub open spec fn in_use(ls: Seq<Seq<char>>, ssid: Seq<char>) -> bool {
    exists|i: int| 0 <= i < ls.len() && marks_in_use(#[trigger] ls[i]) && line_ssid(ls[i]) == ssid
}

/// The strongest signal of the kept lines of `ls` that name `ssid` (0 when
/// there are none).
pub open spec fn best_signal(ls: Seq<Seq<char>>, ssid: Seq<char>) -> int
    decreases ls.len(),
{
    if ls.len() == 0 {
        0
    } else {
        let b = best_signal(ls.drop_last(), ssid);
        let l = ls.last();
        if heard_line(l) && line_ssid(l) == ssid && line_signal(l) > b {
            line_signal(l) as int
        } else {
            b
        }
    }
}

/// `r` is a list of the networks that can be joined for the scan `text`:
/// each SSID at most once, exactly the SSIDs heard and not in use, ordered
/// by their strongest signal, strongest first.  (Among equally strong
/// networks no order is promised.)
pub open spec fn available_list(text: Seq<char>, r: Seq<Seq<char>>) -> bool {
    let ls = lines(text);
    &&& forall|i: int, j: int| 0 <= i < j < r.len() ==> r[i] != r[j]
    &&& forall|s: Seq<char>|
        #![trigger r.contains(s)]
        #![trigger heard(ls, s)]
        r.contains(s) <==> heard(ls, s) && !in_use(ls, s)
    &&& forall|i: int, j: int|
        0 <= i < j < r.len() ==> best_signal(ls, r[i]) >= best_signal(ls, r[j])
}

proof fn lemma_scan_step(all: Seq<Seq<char>>, k: int)
    requires
        0 <= k < all.len(),
    ensures
        forall|s: Seq<char>|
            #[trigger] heard(all.take(k + 1), s) == (heard(all.take(k), s) || (heard_line(all[k])
                && line_ssid(all[k]) == s)),
        forall|s: Seq<char>|
            #[trigger] in_use(all.take(k + 1), s) == (in_use(all.take(k), s) || (marks_in_use(
                all[k],
            ) && line_ssid(all[k]) == s)),
        forall|s: Seq<char>|
            #[trigger] best_signal(all.take(k + 1), s) == (if heard_line(all[k]) && line_ssid(
                all[k],
            ) == s && line_signal(all[k]) > best_signal(all.take(k), s) {
                line_signal(all[k]) as int
            } else {
                best_signal(all.take(k), s)
            }),
{
    let p = all.take(k);
    let q = all.take(k + 1);
    assert(q.drop_last() == p);
    assert(q.last() == all[k]);
    assert forall|s: Seq<char>|
        #[trigger] heard(q, s) == (heard(p, s) || (heard_line(all[k]) && line_ssid(all[k]) == s)) by {
        if heard(q, s) {
            let i = choose|i: int| 0 <= i < q.len() && heard_line(#[trigger] q[i]) && line_ssid(q[i]) == s;
            if i < k {
                assert(p[i] == q[i]);
            }
        }
        if heard(p, s) {
            let i = choose|i: int| 0 <= i < p.len() && heard_line(#[trigger] p[i]) && line_ssid(p[i]) == s;
            assert(q[i] == p[i]);
        }
        if heard_line(all[k]) && line_ssid(all[k]) == s {
            assert(q[k] == all[k]);
        }
    }
    assert forall|s: Seq<char>|
        #[trigger] in_use(q, s) == (in_use(p, s) || (marks_in_use(all[k]) && line_ssid(all[k]) == s)) by {
        if in_use(q, s) {
            let i = choose|i: int| 0 <= i < q.len() && marks_in_use(#[trigger] q[i]) && line_ssid(q[i]) == s;
            if i < k {
                assert(p[i] == q[i]);
            }
        }
        if in_use(p, s) {
            let i = choose|i: int| 0 <= i < p.len() && marks_in_use(#[trigger] p[i]) && line_ssid(p[i]) == s;
            assert(q[i] == p[i]);
        }
        if marks_in_use(all[k]) && line_ssid(all[k]) == s {
            assert(q[k] == all[k]);
        }
    }
}

proof fn lemma_unheard_best(ls: Seq<Seq<char>>, s: Seq<char>)
    requires
        !heard(ls, s),
    ensures
        best_signal(ls, s) == 0,
    decreases ls.len(),
{
    if ls.len() > 0 {
        let d = ls.drop_last();
        assert forall|i: int| 0 <= i < d.len() && heard_line(#[trigger] d[i]) implies line_ssid(d[i])
            != s by {
            assert(ls[i] == d[i]);
        }
        assert(ls[ls.len() - 1] == ls.last());
        lemma_unheard_best(d, s);
    }
}

/// What the reading keeps of one SSID while it goes through the lines.
struct AccessPoint {
    ssid: String,
    heard: bool,
    in_use: bool,
    signal: u8,
}

/// The access point is heard and not in use.
spec fn listable(ap: AccessPoint) -> bool {
    ap.heard && !ap.in_use
}

/// The access points `aps` sum up the lines `p`: one per SSID that a line
/// names with a kept signal or marks as in use.
spec fn sums_up(p: Seq<Seq<char>>, aps: Seq<AccessPoint>) -> bool {
    &&& forall|j: int| 0 <= j < aps.len() ==> (#[trigger] aps[j]).heard == heard(p, aps[j].ssid@)
    &&& forall|j: int| 0 <= j < aps.len() ==> (#[trigger] aps[j]).in_use == in_use(p, aps[j].ssid@)
    &&& forall|j: int| 0 <= j < aps.len() ==> (#[trigger] aps[j]).signal == best_signal(p, aps[j].ssid@)
    &&& forall|j1: int, j2: int|
        0 <= j1 < aps.len() && 0 <= j2 < aps.len() && j1 != j2 ==> (#[trigger] aps[j1]).ssid@
            != (#[trigger] aps[j2]).ssid@
    &&& forall|s: Seq<char>|
        heard(p, s) || in_use(p, s) ==> exists|j: int| 0 <= j < aps.len() && (#[trigger] aps[j]).ssid@ == s
}

/// The access point with the SSID `ssid`, if there is one.
fn find_ap(aps: &Vec<AccessPoint>, ssid: &str) -> (r: Option<usize>)
    ensures
        r matches Some(j) ==> j < aps@.len() && aps@[j as int].ssid@ == ssid@,
        r is None ==> forall|j: int| 0 <= j < aps@.len() ==> (#[trigger] aps@[j]).ssid@ != ssid@,
{
    let mut j: usize = 0;
    while j < aps.len()
        invariant
            j <= aps@.len(),
            forall|i: int| 0 <= i < j ==> (#[trigger] aps@[i]).ssid@ != ssid@,
        decreases aps@.len() - j,
    {
        if str_eq(aps[j].ssid.as_str(), ssid) {
            return Some(j);
        }
        j = j + 1;
    }
    None
}

proof fn lemma_skip_line(all: Seq<Seq<char>>, k: int, aps: Seq<AccessPoint>)
    requires
        0 <= k < all.len(),
        sums_up(all.take(k), aps),
        !heard_line(all[k]),
        !marks_in_use(all[k]),
    ensures
        sums_up(all.take(k + 1), aps),
{
    lemma_scan_step(all, k);
    let p = all.take(k);
    let q = all.take(k + 1);
    assert forall|j: int| 0 <= j < aps.len() implies (#[trigger] aps[j]).signal == best_signal(
        q,
        aps[j].ssid@,
    ) by {
        assert(best_signal(q, aps[j].ssid@) == best_signal(p, aps[j].ssid@));
    }
    assert forall|s: Seq<char>| heard(q, s) || in_use(q, s) implies exists|j: int|
        0 <= j < aps.len() && (#[trigger] aps[j]).ssid@ == s by {
        assert(heard(p, s) || in_use(p, s));
    }
}

proof fn lemma_new_ap(all: Seq<Seq<char>>, k: int, aps: Seq<AccessPoint>, ap: AccessPoint)
    requires
        0 <= k < all.len(),
        sums_up(all.take(k), aps),
        heard_line(all[k]) || marks_in_use(all[k]),
        ap.ssid@ == line_ssid(all[k]),
        ap.heard == heard_line(all[k]),
        ap.in_use == marks_in_use(all[k]),
        ap.signal == (if heard_line(all[k]) {
            line_signal(all[k])
        } else {
            0
        }),
        forall|j: int| 0 <= j < aps.len() ==> (#[trigger] aps[j]).ssid@ != line_ssid(all[k]),
    ensures
        sums_up(all.take(k + 1), aps.push(ap)),
{
    lemma_scan_step(all, k);
    let p = all.take(k);
    let q = all.take(k + 1);
    let n = aps.push(ap);
    let s0 = line_ssid(all[k]);
    assert(!(heard(p, s0) || in_use(p, s0))) by {
        if heard(p, s0) || in_use(p, s0) {
            let j = choose|j: int| 0 <= j < aps.len() && (#[trigger] aps[j]).ssid@ == s0;
        }
    }
    lemma_unheard_best(p, s0);
    assert forall|j: int| 0 <= j < n.len() implies {
        &&& (#[trigger] n[j]).heard == heard(q, n[j].ssid@)
        &&& n[j].in_use == in_use(q, n[j].ssid@)
        &&& n[j].signal == best_signal(q, n[j].ssid@)
    } by {
        if j < aps.len() {
            assert(n[j] == aps[j]);
        }
    }
    assert forall|j1: int, j2: int|
        0 <= j1 < n.len() && 0 <= j2 < n.len() && j1 != j2 implies (#[trigger] n[j1]).ssid@
        != (#[trigger] n[j2]).ssid@ by {
        if j1 < aps.len() {
            assert(n[j1] == aps[j1]);
        }
        if j2 < aps.len() {
            assert(n[j2] == aps[j2]);
        }
    }
    assert forall|s: Seq<char>| heard(q, s) || in_use(q, s) implies exists|j: int|
        0 <= j < n.len() && (#[trigger] n[j]).ssid@ == s by {
        if s == s0 {
            assert(n[aps.len() as int] == ap);
        } else {
            assert(heard(p, s) || in_use(p, s));
            let j = choose|j: int| 0 <= j < aps.len() && (#[trigger] aps[j]).ssid@ == s;
            assert(n[j] == aps[j]);
        }
    }
}

proof fn lemma_update_ap(all: Seq<Seq<char>>, k: int, aps: Seq<AccessPoint>, j0: int, ap: AccessPoint)
    requires
        0 <= k < all.len(),
        sums_up(all.take(k), aps),
        heard_line(all[k]) || marks_in_use(all[k]),
        0 <= j0 < aps.len(),
        aps[j0].ssid@ == line_ssid(all[k]),
        ap.ssid@ == aps[j0].ssid@,
        ap.heard == (aps[j0].heard || heard_line(all[k])),
        ap.in_use == (aps[j0].in_use || marks_in_use(all[k])),
        ap.signal == (if heard_line(all[k]) && line_signal(all[k]) > aps[j0].signal {
            line_signal(all[k])
        } else {
            aps[j0].signal
        }),
    ensures
        sums_up(all.take(k + 1), aps.update(j0, ap)),
{
    lemma_scan_step(all, k);
    let p = all.take(k);
    let q = all.take(k + 1);
    let n = aps.update(j0, ap);
    let s0 = line_ssid(all[k]);
    assert forall|j: int| 0 <= j < n.len() implies {
        &&& (#[trigger] n[j]).heard == heard(q, n[j].ssid@)
        &&& n[j].in_use == in_use(q, n[j].ssid@)
        &&& n[j].signal == best_signal(q, n[j].ssid@)
    } by {
        if j != j0 {
            assert(n[j] == aps[j]);
            assert(aps[j].ssid@ != s0);
        }
    }
    assert forall|j1: int, j2: int|
        0 <= j1 < n.len() && 0 <= j2 < n.len() && j1 != j2 implies (#[trigger] n[j1]).ssid@
        != (#[trigger] n[j2]).ssid@ by {
        if j1 != j0 {
            assert(n[j1] == aps[j1]);
        }
        if j2 != j0 {
            assert(n[j2] == aps[j2]);
        }
    }
    assert forall|s: Seq<char>| heard(q, s) || in_use(q, s) implies exists|j: int|
        0 <= j < n.len() && (#[trigger] n[j]).ssid@ == s by {
        if s == s0 {
            assert(n[j0] == ap);
        } else {
            assert(heard(p, s) || in_use(p, s));
            let j = choose|j: int| 0 <= j < aps.len() && (#[trigger] aps[j]).ssid@ == s;
            assert(j != j0);
            assert(n[j] == aps[j]);
        }
    }
}

/// The signal field parsed as a `u8`.
fn parse_signal(field: &str) -> (r: Option<u8>)
    ensures
        r == parse_u8(field@),
{
    let v = char_vec(field);
    assert(v@.subrange(0, v@.len() as int) == v@);
    parse_u8_range(&v, 0, v.len())
}

/// Goes through the lines of the scan, keeping for each SSID named whether
/// it is heard, whether it is in use, and its strongest kept signal.
fn read_scan(text: &str) -> (aps: Vec<AccessPoint>)
    ensures
        sums_up(lines(text@), aps@),
{
    let cs = char_vec(text);
    let ls = line_ranges(&cs);
    let ghost all = lines(cs@);
    let mut aps: Vec<AccessPoint> = Vec::new();
    let mut k: usize = 0;
    assert(all.take(0) == Seq::<Seq<char>>::empty());
    while k < ls.len()
        invariant
            cs@ == text@,
            all == lines(cs@),
            ranges_of(cs@, ls@, all),
            k <= ls@.len(),
            sums_up(all.take(k as int), aps@),
        decreases ls@.len() - k,
    {
        let (a, b) = ls[k];
        assert(ls@[k as int] == (a, b));
        let ghost line = all[k as int];
        let mut f = terse_field_strings(text, &cs, a, b);
        assert(views(f@) == terse_fields(line));
        let mut named = false;
        if f.len() >= 2 {
            assert(views(f@)[0] == f@[0]@ && views(f@)[1] == f@[1]@);
            if !f[1].as_str().is_empty() {
                let sig = if f.len() >= 3 {
                    assert(views(f@)[2] == f@[2]@);
                    match parse_signal(f[2].as_str()) {
                        Some(v) => v,
                        None => 0,
                    }
                } else {
                    0
                };
                let heard_it = sig >= MIN_SIGNAL;
                let marked = str_eq(f[0].as_str(), "*");
                assert(heard_it == heard_line(line));
                assert(marked == marks_in_use(line));
                if heard_it || marked {
                    named = true;
                    let ssid = f.swap_remove(1);
                    assert(ssid@ == line_ssid(line));
                    match find_ap(&aps, ssid.as_str()) {
                        None => {
                            let ap = AccessPoint {
                                ssid,
                                heard: heard_it,
                                in_use: marked,
                                signal: if heard_it { sig } else { 0 },
                            };
                            proof {
                                lemma_new_ap(all, k as int, aps@, ap);
                            }
                            aps.push(ap);
                        },
                        Some(j) => {
                            let stronger = heard_it && sig > aps[j].signal;
                            let ap = AccessPoint {
                                ssid,
                                heard: aps[j].heard || heard_it,
                                in_use: aps[j].in_use || marked,
                                signal: if stronger { sig } else { aps[j].signal },
                            };
                            proof {
                                lemma_update_ap(all, k as int, aps@, j as int, ap);
                            }
                            aps.set(j, ap);
                        },
                    }
                }
            }
        }
        if !named {
            proof {
                lemma_skip_line(all, k as int, aps@);
            }
        }
        k = k + 1;
    }
    assert(all.take(ls@.len() as int) == all);
    aps
}

/// The indices of the access points that can be listed, ordered by signal,
/// strongest first.
fn strongest_first(aps: &Vec<AccessPoint>) -> (order: Vec<usize>)
    ensures
        forall|p: int|
            0 <= p < order@.len() ==> (#[trigger] order@[p]) < aps@.len() && listable(aps@[order@[p] as int]),
        forall|p: int, q: int| 0 <= p < q < order@.len() ==> order@[p] != order@[q],
        forall|p: int, q: int|
            0 <= p < q < order@.len() ==> aps@[order@[p] as int].signal >= aps@[order@[q] as int].signal,
        forall|j: int|
            0 <= j < aps@.len() && listable(#[trigger] aps@[j]) ==> exists|p: int|
                0 <= p < order@.len() && order@[p] == j,
{
    let mut order: Vec<usize> = Vec::new();
    let mut j: usize = 0;
    while j < aps.len()
        invariant
            j <= aps@.len(),
            forall|p: int|
                0 <= p < order@.len() ==> (#[trigger] order@[p]) < j && listable(aps@[order@[p] as int]),
            forall|p: int, q: int| 0 <= p < q < order@.len() ==> order@[p] != order@[q],
            forall|p: int, q: int|
                0 <= p < q < order@.len() ==> aps@[order@[p] as int].signal >= aps@[order@[q] as int].signal,
            forall|i: int|
                0 <= i < j && listable(#[trigger] aps@[i]) ==> exists|p: int|
                    0 <= p < order@.len() && order@[p] == i,
        decreases aps@.len() - j,
    {
        if aps[j].heard && !aps[j].in_use {
            let sig = aps[j].signal;
            let mut p: usize = 0;
            while p < order.len() && aps[order[p]].signal >= sig
                invariant
                    j < aps@.len(),
                    p <= order@.len(),
                    forall|q: int| 0 <= q < order@.len() ==> (#[trigger] order@[q]) < j,
                    forall|q: int| 0 <= q < p ==> aps@[(#[trigger] order@[q]) as int].signal >= sig,
                decreases order@.len() - p,
            {
                p = p + 1;
            }
            let ghost before = order@;
            proof {
                before.insert_ensures(p as int, j);
            }
            order.insert(p, j);
            assert forall|a: int, b: int| 0 <= a < b < order@.len() implies aps@[order@[a] as int].signal
                >= aps@[order@[b] as int].signal by {
                if p < before.len() {
                    assert(aps@[before[p as int] as int].signal < sig);
                }
                if a < p && b == p {
                } else if a < p && b > p {
                    assert(order@[b] == before[b - 1]);
                } else if a == p && b > p {
                    assert(order@[b] == before[b - 1]);
                } else if a > p {
                    assert(order@[a] == before[a - 1]);
                    assert(order@[b] == before[b - 1]);
                }
            }
            assert forall|a: int, b: int| 0 <= a < b < order@.len() implies order@[a] != order@[b] by {
                if a > p {
                    assert(order@[a] == before[a - 1]);
                }
                if b > p {
                    assert(order@[b] == before[b - 1]);
                }
            }
            assert forall|i: int|
                0 <= i < j + 1 && listable(#[trigger] aps@[i]) implies exists|q: int|
                0 <= q < order@.len() && order@[q] == i by {
                if i == j {
                    assert(order@[p as int] == j);
                } else {
                    let q = choose|q: int| 0 <= q < before.len() && before[q] == i;
                    if q < p {
                        assert(order@[q] == i);
                    } else {
                        assert(order@[q + 1] == i);
                    }
                }
            }
            assert forall|q: int| 0 <= q < order@.len() implies (#[trigger] order@[q]) < j + 1
                && listable(aps@[order@[q] as int]) by {
                if q > p {
                    assert(order@[q] == before[q - 1]);
                }
            }
        }
        j = j + 1;
    }
    order
}

/// The networks that can be joined in the output `text` of
/// `nmcli -t -f IN-USE,SSID,SIGNAL dev wifi list`, strongest first.
pub fn available_networks(text: &str) -> (v: Vec<String>)
    ensures
        available_list(text@, views(v@)),
{
    let aps = read_scan(text);
    let order = strongest_first(&aps);
    let ghost all = lines(text@);
    let mut out: Vec<String> = Vec::new();
    let mut p: usize = 0;
    while p < order.len()
        invariant
            sums_up(all, aps@),
            all == lines(text@),
            forall|q: int|
                0 <= q < order@.len() ==> (#[trigger] order@[q]) < aps@.len() && listable(aps@[order@[q] as int]),
            p <= order@.len(),
            out@.len() == p,
            forall|q: int| 0 <= q < p ==> (#[trigger] out@[q])@ == aps@[order@[q] as int].ssid@,
        decreases order@.len() - p,
    {
        let name = aps[order[p]].ssid.clone();
        out.push(name);
        p = p + 1;
    }
    let ghost r = views(out@);
    assert forall|q: int| 0 <= q < r.len() implies #[trigger] r[q] == aps@[order@[q] as int].ssid@ by {
        assert(r[q] == out@[q]@);
    }
    assert forall|a: int, b: int| 0 <= a < b < r.len() implies r[a] != r[b] by {
        assert(r[a] == aps@[order@[a] as int].ssid@);
        assert(r[b] == aps@[order@[b] as int].ssid@);
    }
    assert forall|s: Seq<char>| r.contains(s) implies heard(all, s) && !in_use(all, s) by {
        let q = choose|q: int| 0 <= q < r.len() && r[q] == s;
        assert(r[q] == aps@[order@[q] as int].ssid@);
    }
    assert forall|s: Seq<char>| heard(all, s) && !in_use(all, s) implies r.contains(s) by {
        let j = choose|j: int| 0 <= j < aps@.len() && (#[trigger] aps@[j]).ssid@ == s;
        assert(listable(aps@[j]));
        let q = choose|q: int| 0 <= q < order@.len() && order@[q] == j;
        assert(r[q] == s);
    }
    assert forall|a: int, b: int| 0 <= a < b < r.len() implies best_signal(all, r[a]) >= best_signal(
        all,
        r[b],
    ) by {
        assert(r[a] == aps@[order@[a] as int].ssid@);
        assert(r[b] == aps@[order@[b] as int].ssid@);
    }
    out
}

/// What a run of `nmcli -t -f IN-USE,SSID,SIGNAL dev wifi list` gives: an
/// error when it could not be run or exited unsuccessfully, else the list.
pub open spec fn avail_networks_result(run: Result<CommandOutput, String>, r: Result<Vec<String>, String>) -> bool {
    match run {
        Err(e) => r matches Err(m) && m@ == "failed to disconnect from current network: "@ + e@,
        Ok(o) => if !o.success {
            r matches Err(m) && m@ == utf8_lossy(o.stderr@)
        } else {
            r matches Ok(v) && available_list(utf8_lossy(o.stdout@), views(v@))
        },
    }
}

/// The networks that can be joined from a run of
/// `nmcli -t -f IN-USE,SSID,SIGNAL dev wifi list`.
pub fn get_avail_networks(run: Result<CommandOutput, String>) -> (r: Result<Vec<String>, String>)
    ensures
        avail_networks_result(run, r),
{
    match run {
        Err(e) => Err(prefixed("failed to disconnect from current network: ", e.as_str())),
        Ok(o) => {
            if !o.success {
                return Err(decode_lossy(o.stderr.as_slice()));
            }
            let networks = decode_lossy(o.stdout.as_slice());
            Ok(available_networks(networks.as_str()))
        },
    }
}

/// Shows the networks that can be joined from a run of
/// `nmcli -t -f IN-USE,SSID,SIGNAL dev wifi list`; on error the window is
/// unchanged and the error is returned.
pub fn avail_networks(ui: &mut Window, run: Result<CommandOutput, String>) -> (r: Result<(), String>)
    ensures
        match run {
            Err(e) => r matches Err(m) && m@ == "failed to disconnect from current network: "@
                + e@ && *final(ui) == *old(ui),
            Ok(o) => if !o.success {
                r matches Err(m) && m@ == utf8_lossy(o.stderr@) && *final(ui) == *old(ui)
            } else {
                r is Ok && available_list(utf8_lossy(o.stdout@), views(final(ui).avail_networks@))
                    && *final(ui) == (Window { avail_networks: final(ui).avail_networks, ..*old(ui) })
            },
        },
{
    match get_avail_networks(run) {
        Err(e) => Err(e),
        Ok(networks) => {
            display_avail_networks(ui, networks);
            Ok(())
        },
    }
}

proof fn lemma_heard_strong(ls: Seq<Seq<char>>, s: Seq<char>)
    requires
        heard(ls, s),
    ensures
        best_signal(ls, s) >= MIN_SIGNAL,
    decreases ls.len(),
{
    let i = choose|i: int| 0 <= i < ls.len() && heard_line(#[trigger] ls[i]) && line_ssid(ls[i]) == s;
    let d = ls.drop_last();
    if i < ls.len() - 1 {
        assert(d[i] == ls[i]);
        lemma_heard_strong(d, s);
    } else {
        assert(ls.last() == ls[i]);
    }
}

/// Each network on the list is heard with a signal of at least 35 and is
/// not the one in use.
pub proof fn listed_networks_are_strong_and_free(text: Seq<char>, r: Seq<Seq<char>>)
    requires
        available_list(text, r),
    ensures
        forall|i: int|
            0 <= i < r.len() ==> heard(lines(text), #[trigger] r[i]) && !in_use(lines(text), r[i])
                && best_signal(lines(text), r[i]) >= MIN_SIGNAL,
{
    assert forall|i: int| 0 <= i < r.len() implies heard(lines(text), #[trigger] r[i]) && !in_use(
        lines(text),
        r[i],
    ) && best_signal(lines(text), r[i]) >= MIN_SIGNAL by {
        assert(r.contains(r[i]));
        lemma_heard_strong(lines(text), r[i]);
    }
}

/// A network's signal on the list is the strongest signal of the lines
/// that name it with a signal the list keeps: none of them is stronger,
/// one of them has it, and it is 0 when no such line names it.
pub proof fn best_signal_is_the_strongest_line(ls: Seq<Seq<char>>, s: Seq<char>)
    ensures
        forall|i: int|
            0 <= i < ls.len() && heard_line(#[trigger] ls[i]) && line_ssid(ls[i]) == s
                ==> best_signal(ls, s) >= line_signal(ls[i]),
        heard(ls, s) ==> exists|i: int|
            0 <= i < ls.len() && heard_line(#[trigger] ls[i]) && line_ssid(ls[i]) == s
                && best_signal(ls, s) == line_signal(ls[i]),
        !heard(ls, s) ==> best_signal(ls, s) == 0,
    decreases ls.len(),
{
    if !heard(ls, s) {
        lemma_unheard_best(ls, s);
    }
    if ls.len() > 0 {
        let d = ls.drop_last();
        let n = ls.len() - 1;
        best_signal_is_the_strongest_line(d, s);
        assert(ls[n] == ls.last());
        assert forall|i: int|
            0 <= i < ls.len() && heard_line(#[trigger] ls[i]) && line_ssid(ls[i]) == s implies best_signal(
            ls,
            s,
        ) >= line_signal(ls[i]) by {
            if i < n {
                assert(d[i] == ls[i]);
            }
        }
        if heard(ls, s) {
            if heard(d, s) {
                let i = choose|i: int|
                    0 <= i < d.len() && heard_line(#[trigger] d[i]) && line_ssid(d[i]) == s
                        && best_signal(d, s) == line_signal(d[i]);
                assert(d[i] == ls[i]);
                if best_signal(ls, s) != best_signal(d, s) {
                    assert(best_signal(ls, s) == line_signal(ls[n]));
                }
            } else {
                let i = choose|i: int| 0 <= i < ls.len() && heard_line(#[trigger] ls[i]) && line_ssid(ls[i]) == s;
                if i < n {
                    assert(d[i] == ls[i]);
                }
                lemma_unheard_best(d, s);
                assert(best_signal(ls, s) == line_signal(ls[n]));
            }
        }
    }
}

proof fn lemma_same_lines_same_facts(l1: Seq<Seq<char>>, l2: Seq<Seq<char>>, s: Seq<char>)
    requires
        forall|l: Seq<char>| l1.contains(l) <==> l2.contains(l),
    ensures
        heard(l1, s) == heard(l2, s),
        in_use(l1, s) == in_use(l2, s),
        best_signal(l1, s) == best_signal(l2, s),
{
    assert forall|a: Seq<Seq<char>>, b: Seq<Seq<char>>|
        (forall|l: Seq<char>| a.contains(l) ==> b.contains(l)) implies (heard(a, s) ==> heard(b, s))
        && (in_use(a, s) ==> in_use(b, s)) && (heard(a, s) ==> best_signal(a, s) <= best_signal(b, s)) by {
        if heard(a, s) {
            best_signal_is_the_strongest_line(a, s);
            best_signal_is_the_strongest_line(b, s);
            let i = choose|i: int|
                0 <= i < a.len() && heard_line(#[trigger] a[i]) && line_ssid(a[i]) == s
                    && best_signal(a, s) == line_signal(a[i]);
            assert(a.contains(a[i]));
            let j = choose|j: int| 0 <= j < b.len() && b[j] == a[i];
            assert(heard_line(b[j]) && line_ssid(b[j]) == s);
        }
        if in_use(a, s) {
            let i = choose|i: int| 0 <= i < a.len() && marks_in_use(#[trigger] a[i]) && line_ssid(a[i]) == s;
            assert(a.contains(a[i]));
            let j = choose|j: int| 0 <= j < b.len() && b[j] == a[i];
            assert(marks_in_use(b[j]) && line_ssid(b[j]) == s);
        }
    }
    if !heard(l1, s) {
        lemma_unheard_best(l1, s);
        lemma_unheard_best(l2, s);
    }
}

proof fn lemma_same_order(ls: Seq<Seq<char>>, r1: Seq<Seq<char>>, r2: Seq<Seq<char>>, i: int)
    requires
        0 <= i <= r1.len(),
        r1.len() == r2.len(),
        r1.no_duplicates(),
        r2.no_duplicates(),
        forall|s: Seq<char>| r1.contains(s) <==> r2.contains(s),
        forall|a: int, b: int| 0 <= a < b < r1.len() ==> best_signal(ls, r1[a]) > best_signal(ls, r1[b]),
        forall|a: int, b: int| 0 <= a < b < r2.len() ==> best_signal(ls, r2[a]) > best_signal(ls, r2[b]),
    ensures
        forall|k: int| 0 <= k < i ==> r1[k] == r2[k],
    decreases i,
{
    if i > 0 {
        let m = i - 1;
        lemma_same_order(ls, r1, r2, m);
        let x = r1[m];
        assert(r1.contains(x));
        let j = choose|j: int| 0 <= j < r2.len() && r2[j] == x;
        if j < m {
            assert(r1[j] == r2[j]);
        } else if j > m {
            let y = r2[m];
            assert(r2.contains(y));
            let k = choose|k: int| 0 <= k < r1.len() && r1[k] == y;
            if k < m {
                assert(r2[k] == r1[k]);
            } else if k > m {
                assert(best_signal(ls, r1[m]) > best_signal(ls, r1[k]));
                assert(best_signal(ls, r2[m]) > best_signal(ls, r2[j]));
            }
        }
    }
}

/// The list depends only on which lines the scan printed, not on their
/// order or on repeated lines: two scans with the same lines list the same
/// networks, each at the same strongest signal, and when no two listed
/// networks are equally strong, in the same order.
pub proof fn scan_list_ignores_line_order(t1: Seq<char>, t2: Seq<char>, r1: Seq<Seq<char>>, r2: Seq<Seq<char>>)
    requires
        available_list(t1, r1),
        available_list(t2, r2),
        forall|l: Seq<char>| lines(t1).contains(l) <==> lines(t2).contains(l),
    ensures
        forall|s: Seq<char>| r1.contains(s) <==> r2.contains(s),
        r1.len() == r2.len(),
        forall|i: int| 0 <= i < r1.len() ==> best_signal(lines(t1), #[trigger] r1[i]) == best_signal(lines(t2), r1[i]),
        (forall|a: int, b: int|
            0 <= a < b < r1.len() ==> best_signal(lines(t1), r1[a]) != best_signal(lines(t1), r1[b]))
            ==> r1 == r2,
{
    let l1 = lines(t1);
    let l2 = lines(t2);
    assert forall|s: Seq<char>| r1.contains(s) <==> r2.contains(s) by {
        lemma_same_lines_same_facts(l1, l2, s);
    }
    assert forall|i: int| 0 <= i < r1.len() implies best_signal(l1, #[trigger] r1[i]) == best_signal(l2, r1[i]) by {
        lemma_same_lines_same_facts(l1, l2, r1[i]);
    }
    assert(r1.no_duplicates());
    assert(r2.no_duplicates());
    r1.unique_seq_to_set();
    r2.unique_seq_to_set();
    assert(r1.to_set() =~= r2.to_set());
    if forall|a: int, b: int|
        0 <= a < b < r1.len() ==> best_signal(l1, r1[a]) != best_signal(l1, r1[b]) {
        assert forall|a: int, b: int| 0 <= a < b < r1.len() implies best_signal(l1, r1[a]) > best_signal(l1, r1[b]) by {
        }
        assert forall|a: int, b: int| 0 <= a < b < r2.len() implies best_signal(l1, r2[a]) > best_signal(l1, r2[b]) by {
            lemma_same_lines_same_facts(l1, l2, r2[a]);
            lemma_same_lines_same_facts(l1, l2, r2[b]);
            assert(r2.contains(r2[a]) && r2.contains(r2[b]));
            let x = choose|x: int| 0 <= x < r1.len() && r1[x] == r2[a];
            let y = choose|y: int| 0 <= y < r1.len() && r1[y] == r2[b];
            assert(x != y);
        }
        lemma_same_order(l1, r1, r2, r1.len() as int);
        assert(r1 =~= r2);
    }
}

} // verus!
