//! Normalizes the base parser's event stream: adjacent text events are
//! merged, wikilinks are recognized inside the merged text, and soft breaks
//! may become hard breaks.
use crate::event::Event;
use crate::text::{slice_text, utf8_of};
use crate::wikilink::{
    flat_shapes, pieces_of, range_ok, shows, wikilink_events, Shape,
};
use core::ops::Range;
use vstd::prelude::*;
use vstd::string::StringSliceAdditionalSpecFns;

verus! {

/// Where an output event comes from.
pub enum Slot {
    /// merged text: the source bytes of the range, spanning it
    Run(int, int),
    /// input event `k`, unchanged
    Kept(int),
    /// an event made by the wikilink parser
    Shaped(Shape),
    /// input event `k`, a soft break, as a hard break
    Hard(int),
}

pub open spec fn flush(run: Option<(int, int)>) -> Seq<Slot> {
    match run {
        Some(r) => seq![Slot::Run(r.0, r.1)],
        None => seq![],
    }
}

/// The events from index `i` on, with the text run `run` still open: each
/// maximal run of text events becomes one `Run` from the first start to the
/// last end.
pub open spec fn group_from(evs: Seq<(Event, Range<usize>)>, i: int, run: Option<(int, int)>) -> Seq<
    Slot,
>
    decreases evs.len() - i,
{
    if i < 0 || i >= evs.len() {
        flush(run)
    } else if evs[i].0 is Text {
        let start = match run {
            Some(r) => r.0,
            None => evs[i].1.start as int,
        };
        group_from(evs, i + 1, Some((start, evs[i].1.end as int)))
    } else {
        flush(run) + seq![Slot::Kept(i)] + group_from(evs, i + 1, None)
    }
}

/// What the events of a run of text become once wikilinks are read.
pub open spec fn expand(src: Seq<u8>, s: Slot) -> Seq<Slot> {
    match s {
        Slot::Run(a, b) => flat_shapes(pieces_of(src, a, b)).map_values(|x: Shape| Slot::Shaped(x)),
        _ => seq![s],
    }
}

pub open spec fn wiki_slots(src: Seq<u8>, g: Seq<Slot>) -> Seq<Slot>
    decreases g.len(),
{
    if g.len() == 0 {
        seq![]
    } else {
        wiki_slots(src, g.drop_last()) + expand(src, g.last())
    }
}

pub open spec fn harden(evs: Seq<(Event, Range<usize>)>, s: Slot) -> Slot {
    match s {
        Slot::Kept(k) => if 0 <= k < evs.len() && evs[k].0 is SoftBreak {
            Slot::Hard(k)
        } else {
            s
        },
        _ => s,
    }
}

/// The slots of the normalized stream.
pub open spec fn normalized(
    src: Seq<u8>,
    evs: Seq<(Event, Range<usize>)>,
    wikilinks: bool,
    hard_breaks: bool,
) -> Seq<Slot> {
    let g = group_from(evs, 0, None);
    let w = if wikilinks {
        wiki_slots(src, g)
    } else {
        g
    };
    if hard_breaks {
        w.map_values(|s: Slot| harden(evs, s))
    } else {
        w
    }
}

/// Output event `e` comes from slot `s`.
pub open spec fn fills(
    src: Seq<u8>,
    evs: Seq<(Event, Range<usize>)>,
    e: (Event, Range<usize>),
    s: Slot,
) -> bool {
    match s {
        Slot::Run(a, b) => {
            &&& e.0 matches Event::Text(t) && utf8_of(t@) == src.subrange(a, b)
            &&& e.1.start == a && e.1.end == b
        },
        Slot::Kept(k) => 0 <= k < evs.len() && e == evs[k],
        Slot::Shaped(x) => shows(src, e, x),
        Slot::Hard(k) => 0 <= k < evs.len() && e.0 == Event::HardBreak && e.1 == evs[k].1,
    }
}

pub open spec fn fills_all(
    src: Seq<u8>,
    evs: Seq<(Event, Range<usize>)>,
    out: Seq<(Event, Range<usize>)>,
    slots: Seq<Slot>,
) -> bool {
    &&& out.len() == slots.len()
    &&& forall|k: int| 0 <= k < out.len() ==> fills(src, evs, #[trigger] out[k], slots[k])
}

/// Every event's range lies in `src`, between characters.
pub open spec fn ranges_in(src: Seq<u8>, evs: Seq<(Event, Range<usize>)>) -> bool {
    forall|k: int|
        0 <= k < evs.len() ==> range_ok(
            src,
            (#[trigger] evs[k].1.start as int, evs[k].1.end as int),
        )
}

/// Adjacent text events start in source order.
pub open spec fn texts_in_order(evs: Seq<(Event, Range<usize>)>) -> bool {
    forall|k: int|
        0 <= k && k + 1 < evs.len() && (#[trigger] evs[k]).0 is Text && evs[k + 1].0 is Text
            ==> evs[k].1.start <= evs[k + 1].1.start
}

/// The elements of `v` in reverse order.
fn into_reversed<T>(v: Vec<T>) -> (r: Vec<T>)
    ensures
        r@.len() == v@.len(),
        forall|k: int| 0 <= k < r@.len() ==> r@[k] == v@[v@.len() - 1 - k],
{
    let ghost orig = v@;
    let mut v = v;
    let mut r: Vec<T> = Vec::new();
    while v.len() > 0
        invariant
            r@.len() + v@.len() == orig.len(),
            v@ == orig.take(v@.len() as int),
            forall|k: int| 0 <= k < r@.len() ==> r@[k] == orig[orig.len() - 1 - k],
        decreases v@.len(),
    {
        let ghost before = v@;
        match v.pop() {
            Some(x) => {
                r.push(x);
                assert(v@ =~= orig.take(v@.len() as int));
            },
            None => {},
        }
    }
    r
}

} // verus!

verus! {

pub open spec fn run_ok(
    src: Seq<u8>,
    evs: Seq<(Event, Range<usize>)>,
    i: int,
    run: Option<(int, int)>,
) -> bool {
    match run {
        Some(r) => {
            &&& 0 < i <= evs.len()
            &&& evs[i - 1].0 is Text
            &&& r.0 <= evs[i - 1].1.start
            &&& r.1 == evs[i - 1].1.end
            &&& range_ok(src, (r.0, r.1))
        },
        None => true,
    }
}

pub open spec fn opt_range(r: Option<Range<usize>>) -> Option<(int, int)> {
    match r {
        Some(x) => Some((x.start as int, x.end as int)),
        None => None,
    }
}

fn merged_text(source: &str, r: Range<usize>) -> (e: (Event, Range<usize>))
    requires
        range_ok(source.spec_bytes(), (r.start as int, r.end as int)),
    ensures
        e.0 matches Event::Text(t) && utf8_of(t@) == source.spec_bytes().subrange(
            r.start as int,
            r.end as int,
        ),
        e.1 == r,
{
    (Event::Text(slice_text(source, r.start, r.end)), r)
}

/// Regroups adjacent text events: `[Text("a"), Text("b"), Link]` becomes
/// `[Text("ab"), Link]`, the merged text being read from the source over
/// the union of the ranges.
pub fn group_text(source: &str, events: Vec<(Event, Range<usize>)>) -> (r: Vec<(Event, Range<usize>)>)
    requires
        ranges_in(source.spec_bytes(), events@),
        texts_in_order(events@),
    ensures
        fills_all(source.spec_bytes(), events@, r@, group_from(events@, 0, None)),
        forall|k: int|
            0 <= k < group_from(events@, 0, None).len() ==> match #[trigger] group_from(
                events@,
                0,
                None,
            )[k] {
                Slot::Run(a, b) => range_ok(source.spec_bytes(), (a, b)),
                Slot::Kept(j) => 0 <= j < events@.len() && !(events@[j].0 is Text),
                _ => false,
            },
{
    let ghost evs = events@;
    let ghost src = source.spec_bytes();
    let n = events.len();
    let mut stack = into_reversed(events);
    let mut result: Vec<(Event, Range<usize>)> = Vec::new();
    let mut run: Option<Range<usize>> = None;
    let ghost mut done: Seq<Slot> = seq![];
    while stack.len() > 0
        invariant
            n == evs.len(),
            stack@.len() <= n,
            forall|k: int| 0 <= k < stack@.len() ==> stack@[k] == evs[n - 1 - k],
            ranges_in(src, evs),
            texts_in_order(evs),
            src == source.spec_bytes(),
            group_from(evs, 0, None) == done + group_from(
                evs,
                n - stack@.len(),
                opt_range(run),
            ),
            fills_all(src, evs, result@, done),
            run_ok(src, evs, n - stack@.len(), opt_range(run)),
            forall|k: int|
                0 <= k < done.len() ==> match #[trigger] done[k] {
                    Slot::Run(a, b) => range_ok(src, (a, b)),
                    Slot::Kept(j) => 0 <= j < evs.len() && !(evs[j].0 is Text),
                    _ => false,
                },
        decreases stack@.len(),
    {
        let ghost i = n - stack@.len();
        let ghost before = result@;
        let (t, r) = stack.pop().unwrap();
        assert((t, r) == evs[i]);
        assert(range_ok(src, (evs[i].1.start as int, evs[i].1.end as int)));
        match t {
            Event::Text(s) => {
                let merged = match run {
                    Some(lr) => Range { start: lr.start, end: r.end },
                    None => r,
                };
                run = Some(merged);
            },
            other => {
                let ghost old_run = opt_range(run);
                match run {
                    Some(lr) => {
                        result.push(merged_text(source, lr));
                    },
                    None => {},
                }
                result.push((other, r));
                run = None;
                proof {
                    let added = flush(old_run) + seq![Slot::Kept(i)];
                    assert(group_from(evs, i, old_run) == added + group_from(evs, i + 1, None));
                    assert(done + (added + group_from(evs, i + 1, None)) =~= (done + added)
                        + group_from(evs, i + 1, None));
                    done = done + added;
                    assert forall|k: int| 0 <= k < result@.len() implies fills(
                        src,
                        evs,
                        #[trigger] result@[k],
                        done[k],
                    ) by {
                        if k < before.len() {
                            assert(result@[k] == before[k]);
                        }
                    }
                }
            },
        }
    }
    let ghost i = n - stack@.len();
    assert(i == n);
    let ghost before = result@;
    let ghost last = opt_range(run);
    match run {
        Some(lr) => {
            result.push(merged_text(source, lr));
        },
        None => {},
    }
    proof {
        assert(group_from(evs, i, last) == flush(last));
        done = done + flush(last);
        assert forall|k: int| 0 <= k < result@.len() implies fills(
            src,
            evs,
            #[trigger] result@[k],
            done[k],
        ) by {
            if k < before.len() {
                assert(result@[k] == before[k]);
            }
        }
        assert(done =~= group_from(evs, 0, None));
    }
    result
}

} // verus!

verus! {

/// `[Text]` events of the grouped stream are replaced by what the wikilink
/// parser makes of them (when `wikilinks` is set); the result is the stream
/// that the renderer reads.
pub fn parse(source: &str, events: Vec<(Event, Range<usize>)>, wikilinks: bool) -> (r: Vec<
    (Event, Range<usize>),
>)
    requires
        ranges_in(source.spec_bytes(), events@),
        texts_in_order(events@),
    ensures
        fills_all(source.spec_bytes(), events@, r@, normalized(source.spec_bytes(), events@, wikilinks, false)),
{
    let ghost evs = events@;
    let ghost src = source.spec_bytes();
    let ghost g = group_from(evs, 0, None);
    let grouped = group_text(source, events);
    if !wikilinks {
        return grouped;
    }
    let ghost gev = grouped@;
    let n = grouped.len();
    let mut stack = into_reversed(grouped);
    let mut result: Vec<(Event, Range<usize>)> = Vec::new();
    while stack.len() > 0
        invariant
            n == gev.len(),
            gev.len() == g.len(),
            stack@.len() <= n,
            forall|k: int| 0 <= k < stack@.len() ==> stack@[k] == gev[n - 1 - k],
            src == source.spec_bytes(),
            fills_all(src, evs, gev, g),
            forall|k: int|
                0 <= k < g.len() ==> match #[trigger] g[k] {
                    Slot::Run(a, b) => range_ok(src, (a, b)),
                    Slot::Kept(j) => 0 <= j < evs.len() && !(evs[j].0 is Text),
                    _ => false,
                },
            fills_all(src, evs, result@, wiki_slots(src, g.take(n - stack@.len()))),
        decreases stack@.len(),
    {
        let ghost m = n - stack@.len();
        let ghost before = result@;
        let (e, r) = stack.pop().unwrap();
        assert((e, r) == gev[m]);
        assert(fills(src, evs, gev[m], g[m]));
        proof {
            assert(g.take(m + 1).drop_last() =~= g.take(m));
            assert(g.take(m + 1).last() == g[m]);
        }
        match e {
            Event::Text(_) => {
                let mut more = wikilink_events(source, r.start, r.end);
                let ghost added = more@;
                result.append(&mut more);
                proof {
                    let shapes = flat_shapes(pieces_of(src, r.start as int, r.end as int));
                    let ex = expand(src, g[m]);
                    assert(ex == shapes.map_values(|x: Shape| Slot::Shaped(x)));
                    assert forall|k: int| 0 <= k < result@.len() implies fills(
                        src,
                        evs,
                        #[trigger] result@[k],
                        wiki_slots(src, g.take(m + 1))[k],
                    ) by {
                        if k < before.len() {
                            assert(result@[k] == before[k]);
                        } else {
                            assert(result@[k] == added[k - before.len()]);
                            assert(shows(src, added[k - before.len()], shapes[k - before.len()]));
                        }
                    }
                }
            },
            other => {
                result.push((other, r));
                proof {
                    assert forall|k: int| 0 <= k < result@.len() implies fills(
                        src,
                        evs,
                        #[trigger] result@[k],
                        wiki_slots(src, g.take(m + 1))[k],
                    ) by {
                        if k < before.len() {
                            assert(result@[k] == before[k]);
                        }
                    }
                }
            },
        }
    }
    assert(g.take(n as int) =~= g);
    result
}

/// The stream that the renderer reads: [`parse`], then, when
/// `hard_line_breaks` is set, every soft break made a hard break.
pub fn normalize(
    source: &str,
    events: Vec<(Event, Range<usize>)>,
    wikilinks: bool,
    hard_line_breaks: bool,
) -> (r: Vec<(Event, Range<usize>)>)
    requires
        ranges_in(source.spec_bytes(), events@),
        texts_in_order(events@),
    ensures
        fills_all(
            source.spec_bytes(),
            events@,
            r@,
            normalized(source.spec_bytes(), events@, wikilinks, hard_line_breaks),
        ),
{
    let ghost evs = events@;
    let ghost src = source.spec_bytes();
    let ghost w = normalized(src, evs, wikilinks, false);
    let parsed = parse(source, events, wikilinks);
    if !hard_line_breaks {
        return parsed;
    }
    let ghost pev = parsed@;
    let n = parsed.len();
    let mut stack = into_reversed(parsed);
    let mut result: Vec<(Event, Range<usize>)> = Vec::new();
    while stack.len() > 0
        invariant
            n == pev.len(),
            stack@.len() <= n,
            forall|k: int| 0 <= k < stack@.len() ==> stack@[k] == pev[n - 1 - k],
            fills_all(src, evs, pev, w),
            result@.len() == n - stack@.len(),
            forall|k: int|
                0 <= k < result@.len() ==> fills(src, evs, #[trigger] result@[k], harden(evs, w[k])),
        decreases stack@.len(),
    {
        let ghost m = n - stack@.len();
        let ghost before = result@;
        let (e, r) = stack.pop().unwrap();
        assert((e, r) == pev[m]);
        assert(fills(src, evs, pev[m], w[m]));
        match e {
            Event::SoftBreak => {
                result.push((Event::HardBreak, r));
            },
            other => {
                result.push((other, r));
            },
        }
        assert forall|k: int| 0 <= k < result@.len() implies fills(
            src,
            evs,
            #[trigger] result@[k],
            harden(evs, w[k]),
        ) by {
            if k < before.len() {
                assert(result@[k] == before[k]);
            }
        }
    }
    result
}

} // verus!
