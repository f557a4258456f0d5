use vstd::prelude::*;

use crate::bms_writer::{bms_bytes, BmsWriter};
use crate::generate::{chart_wf, Chart, CHORDS_PER_BAR, LANES};
use crate::keysound::KeySound;

verus! {

/// The fixed lane-to-channel mapping of the wire format: the seven playable
/// lanes, then the scratch lane.
pub open spec fn lane_channel_spec(lane: int) -> int {
    if lane == 0 {
        11
    } else if lane == 1 {
        12
    } else if lane == 2 {
        13
    } else if lane == 3 {
        14
    } else if lane == 4 {
        15
    } else if lane == 5 {
        18
    } else if lane == 6 {
        19
    } else {
        16
    }
}

pub fn lane_channel(lane: usize) -> (r: u8)
    requires
        lane < 8,
    ensures
        r as int == lane_channel_spec(lane as int),
        r < 100,
{
    if lane == 0 {
        11
    } else if lane == 1 {
        12
    } else if lane == 2 {
        13
    } else if lane == 3 {
        14
    } else if lane == 4 {
        15
    } else if lane == 5 {
        18
    } else if lane == 6 {
        19
    } else {
        16
    }
}

/// The bar data of the first channel in the list with the given number
/// (empty if none).
pub open spec fn assoc_channel(cs: Seq<(u8, Seq<Seq<Seq<Option<usize>>>>)>, id: u8) -> Seq<
    Seq<Seq<Option<usize>>>,
>
    decreases cs.len(),
{
    if cs.len() == 0 {
        Seq::empty()
    } else if cs[0].0 == id {
        cs[0].1
    } else {
        assoc_channel(cs.drop_first(), id)
    }
}

/// No entry carries the number: the lookup is empty.
proof fn lemma_assoc_none(cs: Seq<(u8, Seq<Seq<Seq<Option<usize>>>>)>, id: u8)
    requires
        forall|k: int| 0 <= k < cs.len() ==> (#[trigger] cs[k]).0 != id,
    ensures
        assoc_channel(cs, id) == Seq::<Seq<Seq<Option<usize>>>>::empty(),
    decreases cs.len(),
{
    if cs.len() > 0 {
        assert(forall|k: int| 0 <= k < cs.drop_first().len() ==> cs.drop_first()[k] == cs[k + 1]);
        lemma_assoc_none(cs.drop_first(), id);
    }
}

/// Pushing a row moves through the lookup: the named channel grows by the
/// row, every other channel reads the same.
proof fn lemma_assoc_pushed(
    cs: Seq<(u8, Seq<Seq<Seq<Option<usize>>>>)>,
    id: u8,
    bar_idx: int,
    row: Seq<Option<usize>>,
    id2: u8,
)
    requires
        crate::bms_writer::channels_sorted(cs),
    ensures
        assoc_channel(crate::bms_writer::channels_pushed(cs, id, bar_idx, row), id2) == if id2
            == id {
            crate::bms_writer::bars_pushed(assoc_channel(cs, id), bar_idx, row)
        } else {
            assoc_channel(cs, id2)
        },
    decreases cs.len(),
{
    let out = crate::bms_writer::channels_pushed(cs, id, bar_idx, row);
    if cs.len() == 0 {
        assert(out == seq![
            (id, crate::bms_writer::bars_pushed(
                Seq::<Seq<Seq<Option<usize>>>>::empty(),
                bar_idx,
                row,
            )),
        ]);
        assert(out[0].0 == id);
        if id2 != id {
            let e = out.drop_first();
            assert(e =~= Seq::<(u8, Seq<Seq<Seq<Option<usize>>>>)>::empty());
            assert(assoc_channel(e, id2) == Seq::<Seq<Seq<Option<usize>>>>::empty());
            assert(assoc_channel(cs, id2) == Seq::<Seq<Seq<Option<usize>>>>::empty());
        } else {
            assert(assoc_channel(cs, id) == Seq::<Seq<Seq<Option<usize>>>>::empty());
        }
    } else if cs[0].0 == id {
        assert(out[0] == (id, crate::bms_writer::bars_pushed(cs[0].1, bar_idx, row)));
        if id2 != id {
            let e = out.drop_first();
            assert(e =~= cs.drop_first());
            assert(assoc_channel(out, id2) == assoc_channel(cs.drop_first(), id2));
            assert(assoc_channel(cs, id2) == assoc_channel(cs.drop_first(), id2));
        }
    } else if cs[0].0 < id {
        assert(forall|k: int| 0 <= k < cs.drop_first().len() ==> cs.drop_first()[k] == cs[k + 1]);
        lemma_assoc_pushed(cs.drop_first(), id, bar_idx, row, id2);
        assert(out[0] == cs[0]);
        assert(out.drop_first() =~= crate::bms_writer::channels_pushed(
            cs.drop_first(),
            id,
            bar_idx,
            row,
        ));
        if id2 == cs[0].0 {
            assert(assoc_channel(out, id2) == cs[0].1);
            assert(assoc_channel(cs, id2) == cs[0].1);
        } else {
            assert(assoc_channel(out, id2) == assoc_channel(out.drop_first(), id2));
            assert(assoc_channel(cs, id2) == assoc_channel(cs.drop_first(), id2));
            if id2 == id {
                assert(assoc_channel(cs, id) == assoc_channel(cs.drop_first(), id));
            }
        }
    } else {
        assert(out[0] == (id, crate::bms_writer::bars_pushed(
            Seq::<Seq<Seq<Option<usize>>>>::empty(),
            bar_idx,
            row,
        )));
        if id2 != id {
            let e = out.drop_first();
            assert(e =~= cs);
            assert(assoc_channel(out, id2) == assoc_channel(cs, id2));
        } else {
            assert(forall|k: int| 0 <= k < cs.len() ==> (#[trigger] cs[k]).0 >= cs[0].0 > id);
            lemma_assoc_none(cs, id);
        }
    }
}

/// What the encoder guarantees of one lane's channel: one row per emitted
/// bar, sixteen cells each, a cell occupied exactly where the chart strikes
/// the lane (or, for the scratch channel, where the step carries scratch).
pub open spec fn channel_struct_ok(
    ch: Seq<Seq<Seq<Option<usize>>>>,
    chart: &Chart,
    lane: int,
    nbars: int,
) -> bool {
    &&& ch.len() == nbars
    &&& forall|b: int| 0 <= b < nbars ==> (#[trigger] ch[b]).len() == 1
    &&& forall|b: int| 0 <= b < nbars ==> (#[trigger] ch[b])[0].len() == CHORDS_PER_BAR
    &&& forall|b: int, i: int|
        0 <= b < nbars && 0 <= i < CHORDS_PER_BAR ==> (((#[trigger] ch[b][0][i])
            matches Option::Some(x)) <==> (if lane < LANES {
            chart.bars@[b]@[i]@.lanes.contains(lane as u8)
        } else {
            chart.bars@[b]@[i]@.scratch
        }))
}

/// The lane channels of the output hold exactly the chart's strikes.
pub open spec fn lane_structure_ok(
    cs: Seq<(u8, Seq<Seq<Seq<Option<usize>>>>)>,
    chart: &Chart,
    nbars: int,
) -> bool {
    forall|l: int|
        0 <= l < 8 ==> channel_struct_ok(
            #[trigger] assoc_channel(cs, lane_channel_spec(l) as u8),
            chart,
            l,
            nbars,
        )
}

/// How many bars the encoder emits: the chart's bars, capped at 999.
pub open spec fn emitted_bars(chart: &Chart) -> int {
    if chart.bars@.len() > 999 {
        999
    } else {
        chart.bars@.len() as int
    }
}

/// Serialize a chart into the wire format: header lines, the keysound
/// table named by the collaborator, then one channel line per bar for each
/// playable lane, the scratch lane and the background rows.  Bars beyond
/// the 999th are silently dropped (the format's line-numbering ceiling).
/// The output is exactly the document the writer model describes for the
/// channel data collected from the chart and the collaborator's indices.
#[verifier::loop_isolation(false)]
#[verifier::rlimit(40)]
pub fn chart_to_bms<K: KeySound>(
    chart: &Chart,
    title: &str,
    genre: &str,
    artist: &str,
    total: u64,
    keysounds: &mut K,
) -> (out: Vec<u8>)
    requires
        chart_wf(chart),
        old(keysounds).wf(),
    ensures
        final(keysounds).wf(),
        exists|ks: Seq<(usize, Seq<char>)>, cs: Seq<(u8, Seq<Seq<Seq<Option<usize>>>>)>|
            {
                &&& out@ == #[trigger] bms_bytes(title@, genre@, artist@, total, chart.bpm, ks, cs)
                &&& lane_structure_ok(cs, chart, emitted_bars(chart))
            },
{
    let mut bms = BmsWriter::new();
    bms.set_title(title);
    bms.set_genre(genre);
    bms.set_artist(artist);
    bms.set_bpm(chart.bpm);
    bms.set_total(total);

    let names = keysounds.source_names();
    let mut i: usize = 0;
    while i < names.len()
        invariant
            i <= names@.len(),
            names@.len() <= 1295,
            bms.wf(),
            keysounds.wf(),
            bms.title@ == title@,
            bms.genre@ == genre@,
            bms.artist@ == artist@,
            bms.bpm == chart.bpm,
            bms.total == total,
            crate::bms_writer::cs_view(bms.channels@) == Seq::<
                (u8, Seq<Seq<Seq<Option<usize>>>>),
            >::empty(),
        decreases names@.len() - i,
    {
        bms.set_keysound(i, names[i].as_str());
        i = i + 1;
    }

    let nbars: usize = if chart.bars.len() > 999 {
        999
    } else {
        chart.bars.len()
    };
    assert(nbars as int == emitted_bars(chart));
    proof {
        assert forall|l: int| 0 <= l < 8 implies channel_struct_ok(
            #[trigger] assoc_channel(
                crate::bms_writer::cs_view(bms.channels@),
                lane_channel_spec(l) as u8,
            ),
            chart,
            l,
            0,
        ) by {
            assert(assoc_channel(
                crate::bms_writer::cs_view(bms.channels@),
                lane_channel_spec(l) as u8,
            ) =~= Seq::<Seq<Seq<Option<usize>>>>::empty());
        }
    }
    let mut bar_idx: usize = 0;
    while bar_idx < nbars
        invariant
            bar_idx <= nbars,
            nbars <= 999,
            nbars <= chart.bars@.len(),
            bms.wf(),
            keysounds.wf(),
            bms.title@ == title@,
            bms.genre@ == genre@,
            bms.artist@ == artist@,
            bms.bpm == chart.bpm,
            bms.total == total,
            lane_structure_ok(crate::bms_writer::cs_view(bms.channels@), chart, bar_idx as int),
        decreases nbars - bar_idx,
    {
        let bar = &chart.bars[bar_idx];
        assert(bar@.len() == CHORDS_PER_BAR);

        // The per-step keysound grid: one slot per lane per step, filled in
        // chord order so the collaborator sees the strikes in time order.
        let mut grid: Vec<Vec<Option<usize>>> = Vec::new();
        let mut i: usize = 0;
        while i < bar.len()
            invariant
                i <= bar@.len(),
                bar@.len() == CHORDS_PER_BAR,
                bar_idx < nbars <= 999,
                nbars <= chart.bars@.len(),
                bar@ == chart.bars@[bar_idx as int]@,
                keysounds.wf(),
                grid@.len() == i,
                forall|a: int| 0 <= a < i ==> (#[trigger] grid@[a])@.len() == LANES,
                forall|a: int, l: int|
                    0 <= a < i && 0 <= l < LANES ==> ((#[trigger] grid@[a]@[l])
                        matches Option::Some(x) ==> x < 1295),
                forall|a: int, l: int|
                    0 <= a < i && 0 <= l < LANES ==> (((#[trigger] grid@[a]@[l])
                        is Some) <==> chart.bars@[bar_idx as int]@[a]@.lanes.contains(
                        l as u8,
                    )),
            decreases bar@.len() - i,
        {
            let chord = &bar[i];
            let mut srow: Vec<Option<usize>> = Vec::new();
            let mut l: usize = 0;
            while l < LANES
                invariant
                    l <= LANES,
                    srow@.len() == l,
                    forall|t: int| 0 <= t < l ==> (#[trigger] srow@[t]) matches Option::None,
                decreases LANES - l,
            {
                srow.push(Option::None);
                l = l + 1;
            }
            let ghost lanesv = chord@.lanes;
            proof {
                assert(lanesv.take(0) =~= Seq::<u8>::empty());
            }
            let mut j: usize = 0;
            while j < chord.lanes.len()
                invariant
                    j <= lanesv.len(),
                    lanesv == chord@.lanes,
                    bar_idx < nbars <= 999,
                    i < CHORDS_PER_BAR,
                    chord_lanes_all(lanesv),
                    keysounds.wf(),
                    srow@.len() == LANES,
                    forall|t: int|
                        0 <= t < LANES ==> ((#[trigger] srow@[t]) matches Option::Some(x) ==> x
                            < 1295),
                    forall|t: int|
                        0 <= t < LANES ==> (((#[trigger] srow@[t]) is Some)
                            <==> lanesv.take(j as int).contains(t as u8)),
                decreases lanesv.len() - j,
            {
                let lane = chord.lanes[j];
                assert(lane < LANES as u8);
                let idx = keysounds.key_sound_idx(bar_idx, i, j);
                srow[lane as usize] = Option::Some(idx);
                proof {
                    assert(lanesv.take(j + 1) =~= lanesv.take(j as int).push(lanesv[j as int]));
                    assert forall|t: int| 0 <= t < LANES implies (((#[trigger] srow@[t])
                        is Some) <==> lanesv.take(j + 1).contains(t as u8)) by {
                        crate::generate::lemma_push_contains(
                            lanesv.take(j as int),
                            lanesv[j as int],
                            t as u8,
                        );
                    }
                }
                j = j + 1;
            }
            proof {
                assert(lanesv.take(lanesv.len() as int) =~= lanesv);
            }
            grid.push(srow);
            i = i + 1;
        }

        let ghost csv_bar = crate::bms_writer::cs_view(bms.channels@);

        // One line per playable lane.
        let mut lane_idx: usize = 0;
        while lane_idx < LANES
            invariant
                lane_idx <= LANES,
                bar_idx < nbars <= 999,
                nbars <= chart.bars@.len(),
                bms.wf(),
                keysounds.wf(),
                bms.title@ == title@,
                bms.genre@ == genre@,
                bms.artist@ == artist@,
                bms.bpm == chart.bpm,
                bms.total == total,
                grid@.len() == CHORDS_PER_BAR,
                forall|a: int| 0 <= a < grid@.len() ==> (#[trigger] grid@[a])@.len() == LANES,
                forall|a: int, l: int|
                    0 <= a < grid@.len() && 0 <= l < LANES ==> ((#[trigger] grid@[a]@[l])
                        matches Option::Some(x) ==> x < 1295),
                forall|a: int, l: int|
                    0 <= a < grid@.len() && 0 <= l < LANES ==> (((#[trigger] grid@[a]@[l])
                        is Some) <==> chart.bars@[bar_idx as int]@[a]@.lanes.contains(
                        l as u8,
                    )),
                forall|l2: int|
                    0 <= l2 < lane_idx ==> channel_struct_ok(
                        #[trigger] assoc_channel(
                            crate::bms_writer::cs_view(bms.channels@),
                            lane_channel_spec(l2) as u8,
                        ),
                        chart,
                        l2,
                        bar_idx + 1,
                    ),
                forall|l2: int|
                    lane_idx <= l2 < 8 ==> channel_struct_ok(
                        #[trigger] assoc_channel(
                            crate::bms_writer::cs_view(bms.channels@),
                            lane_channel_spec(l2) as u8,
                        ),
                        chart,
                        l2,
                        bar_idx as int,
                    ),
            decreases LANES - lane_idx,
        {
            let mut lrow: Vec<Option<usize>> = Vec::new();
            let mut i: usize = 0;
            while i < grid.len()
                invariant
                    i <= grid@.len(),
                    lane_idx < LANES,
                    bar_idx < nbars,
                    nbars <= chart.bars@.len(),
                    grid@.len() == CHORDS_PER_BAR,
                    forall|a: int| 0 <= a < grid@.len() ==> (#[trigger] grid@[a])@.len() == LANES,
                    forall|a: int, l: int|
                        0 <= a < grid@.len() && 0 <= l < LANES ==> ((#[trigger] grid@[a]@[l])
                            matches Option::Some(x) ==> x < 1295),
                    forall|a: int, l: int|
                        0 <= a < grid@.len() && 0 <= l < LANES ==> (((#[trigger] grid@[a]@[l])
                            is Some)
                            <==> chart.bars@[bar_idx as int]@[a]@.lanes.contains(l as u8)),
                    lrow@.len() == i,
                    forall|t: int|
                        0 <= t < i ==> ((#[trigger] lrow@[t]) matches Option::Some(x) ==> x
                            < 1295),
                    forall|t: int|
                        0 <= t < i ==> (((#[trigger] lrow@[t]) is Some)
                            <==> chart.bars@[bar_idx as int]@[t]@.lanes.contains(
                            lane_idx as u8,
                        )),
                decreases grid@.len() - i,
            {
                let cell = grid[i][lane_idx];
                lrow.push(cell);
                i = i + 1;
            }
            let ghost lrowv = lrow@;
            let ghost csv_pre = crate::bms_writer::cs_view(bms.channels@);
            let ch = lane_channel(lane_idx);
            bms.push_channel(bar_idx, ch, lrow);
            proof {
                lemma_lane_push_step(
                    csv_pre,
                    chart,
                    lane_idx as int,
                    bar_idx as int,
                    lrowv,
                    crate::bms_writer::cs_view(bms.channels@),
                );
            }
            lane_idx = lane_idx + 1;
        }

        // The scratch lane.
        let mut srow: Vec<Option<usize>> = Vec::new();
        let mut i: usize = 0;
        while i < bar.len()
            invariant
                i <= bar@.len(),
                bar@.len() == CHORDS_PER_BAR,
                bar_idx < nbars <= 999,
                nbars <= chart.bars@.len(),
                bar@ == chart.bars@[bar_idx as int]@,
                keysounds.wf(),
                srow@.len() == i,
                forall|t: int|
                    0 <= t < i ==> ((#[trigger] srow@[t]) matches Option::Some(x) ==> x < 1295),
                forall|t: int|
                    0 <= t < i ==> (((#[trigger] srow@[t]) is Some)
                        <==> chart.bars@[bar_idx as int]@[t]@.scratch),
            decreases bar@.len() - i,
        {
            let chord = &bar[i];
            if chord.scratch {
                let idx = keysounds.scratch_sound_idx(bar_idx, i);
                srow.push(Option::Some(idx));
            } else {
                srow.push(Option::None);
            }
            i = i + 1;
        }
        let ghost srowv = srow@;
        let ghost csv_pre = crate::bms_writer::cs_view(bms.channels@);
        let ch = lane_channel(7);
        bms.push_channel(bar_idx, ch, srow);
        proof {
            lemma_lane_push_step(
                csv_pre,
                chart,
                7,
                bar_idx as int,
                srowv,
                crate::bms_writer::cs_view(bms.channels@),
            );
        }

        // The background rows.
        let mut rows = keysounds.bgm_sound_indices(bar_idx);
        while rows.len() > 0
            invariant
                bar_idx < nbars <= 999,
                bms.wf(),
                keysounds.wf(),
                bms.title@ == title@,
                bms.genre@ == genre@,
                bms.artist@ == artist@,
                bms.bpm == chart.bpm,
                bms.total == total,
                lane_structure_ok(
                    crate::bms_writer::cs_view(bms.channels@),
                    chart,
                    bar_idx + 1,
                ),
                forall|a: int, s: int|
                    0 <= a < rows@.len() && 0 <= s < rows@[a]@.len() ==> ((
                    #[trigger] rows@[a]@[s]) matches Option::Some(x) ==> x < 1295),
            decreases rows@.len(),
        {
            let ghost rows0 = rows@;
            let row = rows.remove(0);
            proof {
                assert(forall|s: int|
                    0 <= s < row@.len() ==> ((#[trigger] row@[s]) matches Option::Some(x) ==> x
                        < 1295));
                assert(forall|a: int| 0 <= a < rows@.len() ==> rows@[a] == rows0[a + 1]);
            }
            let ghost csv_pre = crate::bms_writer::cs_view(bms.channels@);
            let ghost rowv = row@;
            bms.push_channel(bar_idx, 1, row);
            proof {
                assert forall|l2: int| 0 <= l2 < 8 implies channel_struct_ok(
                    #[trigger] assoc_channel(
                        crate::bms_writer::cs_view(bms.channels@),
                        lane_channel_spec(l2) as u8,
                    ),
                    chart,
                    l2,
                    bar_idx + 1,
                ) by {
                    lemma_assoc_pushed(csv_pre, 1, bar_idx as int, rowv, lane_channel_spec(
                        l2,
                    ) as u8);
                }
            }
        }

        bar_idx = bar_idx + 1;
    }

    let out = bms.write();
    proof {
        let wks = crate::bms_writer::ks_view(bms.keysounds@);
        let wcs = crate::bms_writer::cs_view(bms.channels@);
        assert(out@ == bms_bytes(title@, genre@, artist@, total, chart.bpm, wks, wcs));
        assert(lane_structure_ok(wcs, chart, emitted_bars(chart)));
    }
    out
}

/// One lane-channel push during a bar: the pushed channel's bar count grows
/// from `bar_idx` to `bar_idx + 1` with the single new row, and every other
/// lane channel reads unchanged.
proof fn lemma_lane_push_step(
    csv_pre: Seq<(u8, Seq<Seq<Seq<Option<usize>>>>)>,
    chart: &Chart,
    lane: int,
    bar_idx: int,
    row: Seq<Option<usize>>,
    csv_post: Seq<(u8, Seq<Seq<Seq<Option<usize>>>>)>,
)
    requires
        0 <= lane < 8,
        0 <= bar_idx < 999,
        bar_idx < chart.bars@.len(),
        crate::bms_writer::channels_sorted(csv_pre),
        csv_post == crate::bms_writer::channels_pushed(
            csv_pre,
            lane_channel_spec(lane) as u8,
            bar_idx,
            row,
        ),
        channel_struct_ok(
            assoc_channel(csv_pre, lane_channel_spec(lane) as u8),
            chart,
            lane,
            bar_idx,
        ),
        row.len() == CHORDS_PER_BAR,
        forall|t: int|
            0 <= t < CHORDS_PER_BAR ==> (((#[trigger] row[t]) is Some) <==> (if lane
                < LANES {
                chart.bars@[bar_idx]@[t]@.lanes.contains(lane as u8)
            } else {
                chart.bars@[bar_idx]@[t]@.scratch
            })),
    ensures
        channel_struct_ok(
            assoc_channel(csv_post, lane_channel_spec(lane) as u8),
            chart,
            lane,
            bar_idx + 1,
        ),
        forall|l2: int|
            0 <= l2 < 8 && l2 != lane ==> assoc_channel(csv_post, #[trigger] lane_channel_spec(
                l2,
            ) as u8) == assoc_channel(csv_pre, lane_channel_spec(l2) as u8),
{
    let id = lane_channel_spec(lane) as u8;
    let pre = assoc_channel(csv_pre, id);
    lemma_assoc_pushed(csv_pre, id, bar_idx, row, id);
    let post = assoc_channel(csv_post, id);
    assert(post == crate::bms_writer::bars_pushed(pre, bar_idx, row));
    let padded = pre + Seq::new(1, |q: int| Seq::<Seq<Option<usize>>>::empty());
    assert(pre.len() == bar_idx);
    assert(post =~= padded.update(bar_idx, padded[bar_idx].push(row)));
    assert(padded[bar_idx] =~= Seq::<Seq<Option<usize>>>::empty());
    assert(post[bar_idx] =~= seq![row]);
    assert forall|l2: int| 0 <= l2 < 8 && l2 != lane implies assoc_channel(
        csv_post,
        #[trigger] lane_channel_spec(l2) as u8,
    ) == assoc_channel(csv_pre, lane_channel_spec(l2) as u8) by {
        assert(lane_channel_spec(l2) != lane_channel_spec(lane));
        lemma_assoc_pushed(csv_pre, id, bar_idx, row, lane_channel_spec(l2) as u8);
    }
}

/// All of a chord's lanes are real lane indices.
pub open spec fn chord_lanes_all(lanes: Seq<u8>) -> bool {
    forall|j: int| 0 <= j < lanes.len() ==> #[trigger] lanes[j] < LANES as u8
}

} // verus!
