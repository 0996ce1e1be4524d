//! A vehicle's sightings on one road, ordered by time, and the citations
//! that a scan of them yields.
use crate::car::day_of;
use crate::ticket::{speed_of, TicketView};
use vstd::prelude::*;

verus! {

/// Timestamps strictly increase along the table.
pub open spec fn is_table(s: Seq<(u32, u16)>) -> bool {
    forall|i: int, j: int| 0 <= i < j < s.len() ==> #[trigger] s[i].0 < #[trigger] s[j].0
}

/// `after` is `before` with `mile` recorded at `time`: an ordered table that
/// holds the new sighting and every earlier one at another time.
pub open spec fn table_insert(before: Seq<(u32, u16)>, time: u32, mile: u16, after: Seq<(u32, u16)>) -> bool {
    &&& is_table(after)
    &&& forall|e: (u32, u16)| #[trigger]
        after.contains(e) <==> (e == (time, mile) || (before.contains(e) && e.0 != time))
}

/// Records `mile` at `time`, keeping the table ordered; a sighting at the same
/// time is replaced.
pub fn insert_sighting(table: &mut Vec<(u32, u16)>, time: u32, mile: u16)
    requires
        is_table(old(table)@),
    ensures
        table_insert(old(table)@, time, mile, final(table)@),
{
    let n = table.len();
    let mut i: usize = 0;
    while i < n && table[i].0 < time
        invariant
            n == table.len(),
            i <= n,
            table@ == old(table)@,
            forall|j: int| 0 <= j < i ==> #[trigger] table@[j].0 < time,
        decreases n - i,
    {
        i = i + 1;
    }
    let ghost s = table@;
    if i < n && table[i].0 == time {
        table.set(i, (time, mile));
        proof {
            let t = table@;
            assert(t == s.update(i as int, (time, mile)));
            assert forall|a: int, b: int| 0 <= a < b < t.len() implies #[trigger] t[a].0
                < #[trigger] t[b].0 by {
                assert(s[a].0 < s[b].0);
            }
            assert forall|e: (u32, u16)| #[trigger]
                t.contains(e) <==> (e == (time, mile) || (s.contains(e) && e.0 != time)) by {
                if t.contains(e) {
                    let j = choose|j: int| 0 <= j < t.len() && t[j] == e;
                    if j != i {
                        assert(s[j] == e);
                        if j < i {
                            assert(s[j].0 < s[i as int].0);
                        } else {
                            assert(s[i as int].0 < s[j].0);
                        }
                    }
                }
                if e == (time, mile) {
                    assert(t[i as int] == e);
                }
                if s.contains(e) && e.0 != time {
                    let j = choose|j: int| 0 <= j < s.len() && s[j] == e;
                    assert(t[j] == e);
                }
            }
        }
    } else {
        table.insert(i, (time, mile));
        proof {
            let t = table@;
            assert(t == s.insert(i as int, (time, mile)));
            assert forall|j: int| i <= j < s.len() implies #[trigger] s[j].0 > time by {
                if i < j {
                    assert(s[i as int].0 < s[j].0);
                }
            }
            assert forall|a: int, b: int| 0 <= a < b < t.len() implies #[trigger] t[a].0
                < #[trigger] t[b].0 by {
                if b < i {
                    assert(s[a].0 < s[b].0);
                } else if b == i {
                    assert(t[a] == s[a]);
                } else if a < i {
                    assert(t[a] == s[a] && t[b] == s[b - 1]);
                } else if a == i {
                    assert(t[b] == s[b - 1]);
                } else {
                    assert(s[a - 1].0 < s[b - 1].0);
                }
            }
            assert forall|e: (u32, u16)| #[trigger]
                t.contains(e) <==> (e == (time, mile) || (s.contains(e) && e.0 != time)) by {
                if t.contains(e) {
                    let j = choose|j: int| 0 <= j < t.len() && t[j] == e;
                    if j < i {
                        assert(s[j] == e);
                    } else if j > i {
                        assert(s[j - 1] == e);
                    }
                }
                if e == (time, mile) {
                    assert(t[i as int] == e);
                }
                if s.contains(e) && e.0 != time {
                    let j = choose|j: int| 0 <= j < s.len() && s[j] == e;
                    if j < i {
                        assert(t[j] == e);
                    } else {
                        assert(t[j + 1] == e);
                    }
                }
            }
        }
    }
}

/// Two sightings, in order, between which the vehicle moved forward faster
/// than `limit` units per hour.
pub open spec fn is_violation(a: (u32, u16), b: (u32, u16), limit: u16) -> bool {
    &&& a.0 < b.0
    &&& a.1 < b.1
    &&& speed_of(a.0, a.1, b.0, b.1) > limit * 100
}

/// Whether a citation covers a calendar day: the day of either of its sightings.
pub open spec fn covers(t: TicketView, day: u32) -> bool {
    day_of(t.timestamp1) == day || day_of(t.timestamp2) == day
}

/// The citation for the interval between sightings `a` and `b`.
pub open spec fn citation_for(plate: Seq<char>, road_id: u16, a: (u32, u16), b: (u32, u16)) -> TicketView {
    TicketView { plate, road_id, mile1: a.1, timestamp1: a.0, mile2: b.1, timestamp2: b.0 }
}

/// Scanning the first `k` adjacent pairs of `s`, in order, starting from the
/// ticketed days `days`: the citations issued and the ticketed days after.
/// A violating pair is cited only when neither of its days is ticketed yet,
/// and citing it tickets both.
pub open spec fn citations(
    s: Seq<(u32, u16)>,
    k: int,
    days: Set<u32>,
    limit: u16,
    plate: Seq<char>,
    road_id: u16,
) -> (Seq<TicketView>, Set<u32>)
    decreases k,
{
    if k <= 0 {
        (Seq::empty(), days)
    } else {
        let prev = citations(s, k - 1, days, limit, plate, road_id);
        let a = s[k - 1];
        let b = s[k];
        if is_violation(a, b, limit) && !prev.1.contains(day_of(a.0)) && !prev.1.contains(
            day_of(b.0),
        ) {
            (
                prev.0.push(citation_for(plate, road_id, a, b)),
                prev.1.insert(day_of(a.0)).insert(day_of(b.0)),
            )
        } else {
            prev
        }
    }
}

/// The scan over every adjacent pair of the table.
pub open spec fn all_citations(
    s: Seq<(u32, u16)>,
    days: Set<u32>,
    limit: u16,
    plate: Seq<char>,
    road_id: u16,
) -> (Seq<TicketView>, Set<u32>) {
    citations(s, s.len() - 1, days, limit, plate, road_id)
}

/// A scan issues citations only for real violations, never for a day already
/// ticketed before it or by an earlier citation of the same scan, and tickets
/// exactly the days its citations cover.
pub proof fn lemma_citations_days(
    s: Seq<(u32, u16)>,
    k: int,
    days: Set<u32>,
    limit: u16,
    plate: Seq<char>,
    road_id: u16,
)
    requires
        k < s.len(),
    ensures
        ({
            let (tickets, after) = citations(s, k, days, limit, plate, road_id);
            &&& forall|i: int, d: u32|
                0 <= i < tickets.len() && #[trigger] covers(tickets[i], d) ==> !days.contains(d)
                    && after.contains(d)
            &&& forall|i: int, j: int, d: u32|
                0 <= i < j < tickets.len() && #[trigger] covers(tickets[i], d) ==> !#[trigger] covers(
                    tickets[j],
                    d,
                )
            &&& forall|d: u32| #[trigger]
                after.contains(d) ==> days.contains(d) || exists|i: int|
                    0 <= i < tickets.len() && #[trigger] covers(tickets[i], d)
            &&& days.subset_of(after)
            &&& forall|i: int|
                0 <= i < tickets.len() ==> {
                    let t = #[trigger] tickets[i];
                    &&& t.plate == plate
                    &&& t.road_id == road_id
                    &&& is_violation((t.timestamp1, t.mile1), (t.timestamp2, t.mile2), limit)
                }
        }),
    decreases k,
{
    if k > 0 {
        lemma_citations_days(s, k - 1, days, limit, plate, road_id);
        let prev = citations(s, k - 1, days, limit, plate, road_id);
        let cur = citations(s, k, days, limit, plate, road_id);
        if cur.0.len() > prev.0.len() {
            let n = prev.0.len() as int;
            assert(cur.0 == prev.0.push(cur.0[n]));
            assert forall|i: int, j: int, d: u32|
                0 <= i < j < cur.0.len() && #[trigger] covers(cur.0[i], d) implies !#[trigger] covers(
                cur.0[j],
                d,
            ) by {
                assert(cur.0[i] == prev.0[i]);
                if j < n {
                    assert(cur.0[j] == prev.0[j]);
                }
            }
            assert forall|d: u32| #[trigger]
                cur.1.contains(d) implies days.contains(d) || exists|i: int|
                0 <= i < cur.0.len() && #[trigger] covers(cur.0[i], d) by {
                if prev.1.contains(d) && !days.contains(d) {
                    let i = choose|i: int| 0 <= i < prev.0.len() && #[trigger] covers(prev.0[i], d);
                    assert(cur.0[i] == prev.0[i]);
                }
                if !prev.1.contains(d) {
                    assert(covers(cur.0[n], d));
                }
            }
        }
    }
}

} // verus!
