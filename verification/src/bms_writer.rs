use vstd::prelude::*;

verus! {

/// The protocol's digit alphabet: 0-9 then A-Z, for base-36 codes and for
/// plain decimal numbers (whose digits are the first ten entries).
pub open spec fn bms_digits() -> Seq<char> {
    "0123456789ABCDEFGHIJKLMNOPQRSTUVWXYZ"@
}

/// The two-character base-36 code of a keysound table index: index 0 is
/// reserved for "no event", so stored indices are shifted up by one before
/// encoding.
pub open spec fn code_of(idx: int) -> Seq<char> {
    seq![bms_digits()[(idx + 1) / 36], bms_digits()[(idx + 1) % 36]]
}

/// A step's two-character cell: "00" for no event, else the index code.
pub open spec fn cell_of(e: Option<usize>) -> Seq<char> {
    match e {
        Option::None => seq![bms_digits()[0], bms_digits()[0]],
        Option::Some(i) => code_of(i as int),
    }
}

/// The run of two-character cells of one channel line.
pub open spec fn cells_text(row: Seq<Option<usize>>) -> Seq<char>
    decreases row.len(),
{
    if row.len() == 0 {
        Seq::empty()
    } else {
        cell_of(row[0]) + cells_text(row.drop_first())
    }
}

/// A zero-padded three-digit decimal.
pub open spec fn dec3(n: int) -> Seq<char> {
    seq![bms_digits()[n / 100 % 10], bms_digits()[n / 10 % 10], bms_digits()[n % 10]]
}

/// A zero-padded two-digit decimal.
pub open spec fn dec2(n: int) -> Seq<char> {
    seq![bms_digits()[n / 10 % 10], bms_digits()[n % 10]]
}

/// An unpadded decimal numeral.
pub open spec fn dec(n: int) -> Seq<char>
    decreases n,
{
    if n < 10 {
        seq![bms_digits()[if n >= 0 {
            n % 10
        } else {
            0
        }]]
    } else {
        dec(n / 10) + seq![bms_digits()[n % 10]]
    }
}

/// One channel line: `#<bar:3><channel:2>:<cells>` and a newline.
pub open spec fn line_text(bar_no: int, chan: int, row: Seq<Option<usize>>) -> Seq<char> {
    seq!['#'] + dec3(bar_no) + dec2(chan) + seq![':'] + cells_text(row) + seq!['\n']
}

/// All lines of one bar of a channel, one per pushed row.
pub open spec fn bar_lines(bar_no: int, chan: int, rows: Seq<Seq<Option<usize>>>) -> Seq<char>
    decreases rows.len(),
{
    if rows.len() == 0 {
        Seq::empty()
    } else {
        line_text(bar_no, chan, rows[0]) + bar_lines(bar_no, chan, rows.drop_first())
    }
}

/// The whole text of one channel from bar `i` on; bar lines carry the
/// one-based bar number.
pub open spec fn channel_text_from(chan: int, bars: Seq<Seq<Seq<Option<usize>>>>, i: int) -> Seq<
    char,
>
    decreases bars.len() - i,
{
    if i < 0 || i >= bars.len() {
        Seq::empty()
    } else {
        bar_lines(i + 1, chan, bars[i]) + channel_text_from(chan, bars, i + 1)
    }
}

pub open spec fn channel_text(chan: int, bars: Seq<Seq<Seq<Option<usize>>>>) -> Seq<char> {
    channel_text_from(chan, bars, 0)
}

/// Append one bar row to the channel's bar list, padding with empty bars
/// up to the bar's index first.
pub open spec fn bars_pushed(
    bars: Seq<Seq<Seq<Option<usize>>>>,
    bar_idx: int,
    row: Seq<Option<usize>>,
) -> Seq<Seq<Seq<Option<usize>>>> {
    let padded = if bars.len() < bar_idx + 1 {
        bars + Seq::new((bar_idx + 1 - bars.len()) as nat, |q: int| Seq::<Seq<Option<usize>>>::empty())
    } else {
        bars
    };
    padded.update(bar_idx, padded[bar_idx].push(row))
}

/// Every index a channel stores fits the two-digit base-36 code.
pub open spec fn channel_wf(bars: Seq<Seq<Seq<Option<usize>>>>) -> bool {
    forall|b: int, r: int, s: int|
        0 <= b < bars.len() && 0 <= r < bars[b].len() && 0 <= s < bars[b][r].len() ==> ((
        #[trigger] bars[b][r][s]) matches Option::Some(x) ==> x < 1295)
}

/// Write `s` (one of the protocol digits) for digit value `d`.
pub(crate) fn push_digit(out: &mut String, d: usize) -> (r: ())
    requires
        d < 36,
    ensures
        final(out)@ == old(out)@ + seq![bms_digits()[d as int]],
{
    let digits = "0123456789ABCDEFGHIJKLMNOPQRSTUVWXYZ";
    proof {
        reveal_strlit("0123456789ABCDEFGHIJKLMNOPQRSTUVWXYZ");
        assert(digits@.len() == 36);
        assert(digits.is_ascii());
    }
    let piece = digits.substring_ascii(d, d + 1);
    out.append(piece);
    proof {
        assert(piece@ =~= seq![bms_digits()[d as int]]);
    }
}

/// The reserved-index-aware two-character base-36 code of `idx`.
pub fn to_bms_index(idx: usize) -> (r: String)
    requires
        idx < 1295,
    ensures
        r@ == code_of(idx as int),
        r@.len() == 2,
{
    let mut out = String::new();
    push_digit(&mut out, (idx + 1) / 36);
    push_digit(&mut out, (idx + 1) % 36);
    assert(out@ =~= code_of(idx as int));
    out
}

/// Append the decimal numeral of `n`.
fn push_dec(out: &mut String, n: u64)
    ensures
        final(out)@ == old(out)@ + dec(n as int),
    decreases n,
{
    if n < 10 {
        push_digit(out, (n % 10) as usize);
    } else {
        push_dec(out, n / 10);
        push_digit(out, (n % 10) as usize);
        assert(out@ =~= old(out)@ + dec(n as int));
    }
}

/// Append the two-character cell of one step.
fn push_cell(out: &mut String, e: &Option<usize>)
    requires
        e matches Option::Some(i) ==> i < 1295,
    ensures
        final(out)@ == old(out)@ + cell_of(*e),
{
    match e {
        Option::None => {
            push_digit(out, 0);
            push_digit(out, 0);
            assert(out@ =~= old(out)@ + cell_of(*e));
        },
        Option::Some(i) => {
            push_digit(out, (*i + 1) / 36);
            push_digit(out, (*i + 1) % 36);
            assert(out@ =~= old(out)@ + cell_of(*e));
        },
    }
}

/// One fixed-width channel of the chart: for each bar, the rows pushed to
/// it, each row one two-character cell per step.
#[derive(Debug)]
pub struct Channel {
    pub bars: Vec<Vec<Vec<Option<usize>>>>,
}

impl Channel {
    pub fn new() -> (r: Channel)
        ensures
            r.bars.deep_view() == Seq::<Seq<Seq<Option<usize>>>>::empty(),
    {
        let r = Channel { bars: Vec::new() };
        proof {
            assert(r.bars.deep_view() =~= Seq::<Seq<Seq<Option<usize>>>>::empty());
        }
        r
    }

    /// Add one row to bar `bar_idx`, creating empty bars up to it if needed.
    #[verifier::loop_isolation(false)]
    pub fn push_to_bar(&mut self, bar_idx: usize, bar: Vec<Option<usize>>)
        requires
            bar_idx < 1000,
        ensures
            final(self).bars.deep_view() == bars_pushed(
                old(self).bars.deep_view(),
                bar_idx as int,
                bar@,
            ),
    {
        let ghost bars0 = self.bars.deep_view();
        while self.bars.len() < bar_idx + 1
            invariant
                bars0.len() >= self.bars@.len() ==> self.bars.deep_view() == bars0,
                bars0.len() < self.bars@.len() ==> (self.bars@.len() <= bar_idx + 1
                    && self.bars.deep_view() == bars0 + Seq::new(
                    (self.bars@.len() - bars0.len()) as nat,
                    |q: int| Seq::<Seq<Option<usize>>>::empty(),
                )),
            decreases bar_idx + 1 - self.bars.len(),
        {
            let ghost pre_deep = self.bars.deep_view();
            let ghost pre_vecs = self.bars@;
            let ghost pre_len = self.bars@.len() as int;
            self.bars.push(Vec::new());
            proof {
                let rhs = bars0 + Seq::new(
                    (self.bars@.len() - bars0.len()) as nat,
                    |q: int| Seq::<Seq<Option<usize>>>::empty(),
                );
                assert forall|j: int| 0 <= j < self.bars@.len() implies self.bars.deep_view()[j]
                    == rhs[j] by {
                    if j < pre_len {
                        assert(self.bars@[j] == pre_vecs[j]);
                        assert(self.bars.deep_view()[j] == pre_deep[j]);
                    } else {
                        assert(self.bars@[j]@.len() == 0);
                        assert(self.bars.deep_view()[j] =~= Seq::<Seq<Option<usize>>>::empty());
                    }
                }
                assert(self.bars.deep_view() =~= rhs);
            }
        }
        let ghost padded = self.bars.deep_view();
        proof {
            if bars0.len() < bar_idx + 1 {
                assert(padded =~~= bars0 + Seq::new(
                    (bar_idx + 1 - bars0.len()) as nat,
                    |q: int| Seq::<Seq<Option<usize>>>::empty(),
                ));
            }
        }
        let ghost rowv = bar@;
        let slot = &mut self.bars[bar_idx];
        slot.push(bar);
        proof {
            assert(self.bars.deep_view() =~~= padded.update(
                bar_idx as int,
                padded[bar_idx as int].push(rowv),
            ));
        }
    }

    /// The channel's whole text block, one line per bar row.
    #[verifier::loop_isolation(false)]
    #[verifier::rlimit(30)]
    pub fn write(&self, channel_idx: u8) -> (out: String)
        requires
            channel_idx < 100,
            self.bars@.len() <= 999,
            channel_wf(self.bars.deep_view()),
        ensures
            out@ == channel_text(channel_idx as int, self.bars.deep_view()),
    {
        let ghost bars = self.bars.deep_view();
        let mut out = String::new();
        let mut b: usize = 0;
        proof {
            assert(out@ + channel_text_from(channel_idx as int, bars, 0) =~= channel_text(
                channel_idx as int,
                bars,
            ));
        }
        while b < self.bars.len()
            invariant
                b <= bars.len(),
                bars == self.bars.deep_view(),
                bars.len() <= 999,
                channel_idx < 100,
                channel_wf(bars),
                channel_text(channel_idx as int, bars) == out@ + channel_text_from(
                    channel_idx as int,
                    bars,
                    b as int,
                ),
            decreases bars.len() - b,
        {
            let ghost out_b = out@;
            let rows = &self.bars[b];
            let ghost rowsv = bars[b as int];
            assert(rows.deep_view() == rowsv);
            let mut r: usize = 0;
            while r < rows.len()
                invariant
                    r <= rowsv.len(),
                    rows.deep_view() == rowsv,
                    rows@.len() == rowsv.len(),
                    b < bars.len(),
                    bars.len() <= 999,
                    channel_idx < 100,
                    rowsv == bars[b as int],
                    channel_wf(bars),
                    out@ == out_b + bar_lines_upto(b + 1, channel_idx as int, rowsv, r as int),
                decreases rowsv.len() - r,
            {
                let ghost line_start = out@;
                let row = &rows[r];
                let ghost rv = rowsv[r as int];
                assert(row@ == rv);
                out.append("#");
                push_digit(&mut out, (b + 1) / 100 % 10);
                push_digit(&mut out, (b + 1) / 10 % 10);
                push_digit(&mut out, (b + 1) % 10);
                push_digit(&mut out, (channel_idx as usize) / 10);
                push_digit(&mut out, (channel_idx as usize) % 10);
                out.append(":");
                proof {
                    reveal_strlit("#");
                    reveal_strlit(":");
                    assert(out@ =~= line_start + seq!['#'] + dec3(b + 1) + dec2(channel_idx as int)
                        + seq![':']);
                }
                let ghost cells_start = out@;
                let mut s: usize = 0;
                while s < row.len()
                    invariant
                        s <= rv.len(),
                        row@ == rv,
                        b < bars.len(),
                        r < rowsv.len(),
                        rowsv == bars[b as int],
                        rv == rowsv[r as int],
                        channel_wf(bars),
                        out@ == cells_start + cells_upto(rv, s as int),
                    decreases rv.len() - s,
                {
                    proof {
                        assert(rv[s as int] matches Option::Some(x) ==> x < 1295);
                        assert(cells_upto(rv, s + 1) =~= cells_upto(rv, s as int) + cell_of(
                            rv[s as int],
                        ));
                    }
                    push_cell(&mut out, &row[s]);
                    s = s + 1;
                }
                out.append("\n");
                proof {
                    reveal_strlit("\n");
                    lemma_cells_upto_all(rv);
                    assert(out@ =~= line_start + line_text(b + 1, channel_idx as int, rv));
                    assert(bar_lines_upto(b + 1, channel_idx as int, rowsv, r + 1) =~= bar_lines_upto(
                        b + 1,
                        channel_idx as int,
                        rowsv,
                        r as int,
                    ) + line_text(b + 1, channel_idx as int, rv));
                    assert(out@ =~= out_b + bar_lines_upto(b + 1, channel_idx as int, rowsv, r + 1));
                }
                r = r + 1;
            }
            proof {
                lemma_bar_lines_upto_all(b + 1, channel_idx as int, rowsv);
                assert(channel_text_from(channel_idx as int, bars, b as int) == bar_lines(
                    b + 1,
                    channel_idx as int,
                    rowsv,
                ) + channel_text_from(channel_idx as int, bars, b + 1));
                assert(channel_text(channel_idx as int, bars) =~= out@ + channel_text_from(
                    channel_idx as int,
                    bars,
                    b + 1,
                ));
            }
            b = b + 1;
        }
        proof {
            assert(channel_text_from(channel_idx as int, bars, b as int) =~= Seq::<char>::empty());
            assert(out@ + Seq::<char>::empty() =~= out@);
        }
        out
    }
}

/// What the outside Shift-JIS encoder returns for a text: a pure function
/// of the characters alone.
pub uninterp spec fn sjis_of(s: Seq<char>) -> Seq<u8>;

/// Relies on encoding_rs's SHIFT_JIS encoder, which maps a text to its
/// legacy single-byte-oriented encoding; the result depends on the
/// characters alone.
#[verifier::external_body]
fn encode_shift_jis(s: &str) -> (r: Vec<u8>)
    ensures
        r@ == sjis_of(s@),
{
    encoding_rs::SHIFT_JIS.encode(s).0.to_vec()
}

/// A text's characters each truncated to a byte; on the ASCII texts the
/// writer emits this is exactly their byte encoding.
pub open spec fn ascii_bytes(s: Seq<char>) -> Seq<u8> {
    Seq::new(s.len(), |i: int| s[i] as u8)
}

proof fn lemma_ascii_bytes_concat(a: Seq<char>, b: Seq<char>)
    ensures
        ascii_bytes(a + b) == ascii_bytes(a) + ascii_bytes(b),
{
    assert(ascii_bytes(a + b) =~= ascii_bytes(a) + ascii_bytes(b));
}

/// Append a text's bytes, character by character.
pub(crate) fn append_ascii(out: &mut Vec<u8>, s: &str)
    ensures
        final(out)@ == old(out)@ + ascii_bytes(s@),
{
    let n = s.unicode_len();
    let mut i: usize = 0;
    while i < n
        invariant
            i <= n,
            n == s@.len(),
            out@ == old(out)@ + ascii_bytes(s@.take(i as int)),
        decreases n - i,
    {
        let c = s.get_char(i);
        out.push(c as u8);
        proof {
            assert(out@ =~= old(out)@ + ascii_bytes(s@.take(i + 1)));
        }
        i = i + 1;
    }
    assert(s@.take(n as int) =~= s@);
}

/// One channel of the writer, keyed by its protocol channel number.
#[derive(Debug)]
pub struct ChannelEntry {
    pub id: u8,
    pub channel: Channel,
}

/// One keysound table entry, keyed by its table index.
#[derive(Debug)]
pub struct KeysoundEntry {
    pub idx: usize,
    pub name: String,
}

pub open spec fn cs_view(cs: Seq<ChannelEntry>) -> Seq<(u8, Seq<Seq<Seq<Option<usize>>>>)> {
    cs.map_values(|e: ChannelEntry| (e.id, e.channel.bars.deep_view()))
}

pub open spec fn ks_view(ks: Seq<KeysoundEntry>) -> Seq<(usize, Seq<char>)> {
    ks.map_values(|e: KeysoundEntry| (e.idx, e.name@))
}

/// The channel list after one row is pushed: walking from the front, an
/// entry with the same number takes the row, a larger number has the new
/// channel inserted before it, and a new largest number goes at the end.
pub open spec fn channels_pushed(
    cs: Seq<(u8, Seq<Seq<Seq<Option<usize>>>>)>,
    id: u8,
    bar_idx: int,
    row: Seq<Option<usize>>,
) -> Seq<(u8, Seq<Seq<Seq<Option<usize>>>>)>
    decreases cs.len(),
{
    if cs.len() == 0 {
        seq![(id, bars_pushed(Seq::<Seq<Seq<Option<usize>>>>::empty(), bar_idx, row))]
    } else if cs[0].0 == id {
        seq![(id, bars_pushed(cs[0].1, bar_idx, row))] + cs.drop_first()
    } else if cs[0].0 < id {
        seq![cs[0]] + channels_pushed(cs.drop_first(), id, bar_idx, row)
    } else {
        seq![(id, bars_pushed(Seq::<Seq<Seq<Option<usize>>>>::empty(), bar_idx, row))] + cs
    }
}

/// Channel numbers strictly ascending: what the sorted-insert keeps.
pub open spec fn channels_sorted(cs: Seq<(u8, Seq<Seq<Seq<Option<usize>>>>)>) -> bool {
    forall|a: int, b: int| 0 <= a < b < cs.len() ==> (#[trigger] cs[a]).0 < (#[trigger] cs[b]).0
}

/// The keysound table after one name is set: an existing index is replaced,
/// otherwise the entry is inserted in index order.
pub open spec fn keysounds_put(ks: Seq<(usize, Seq<char>)>, idx: usize, name: Seq<char>) -> Seq<
    (usize, Seq<char>),
>
    decreases ks.len(),
{
    if ks.len() == 0 {
        seq![(idx, name)]
    } else if ks[0].0 == idx {
        seq![(idx, name)] + ks.drop_first()
    } else if ks[0].0 < idx {
        seq![ks[0]] + keysounds_put(ks.drop_first(), idx, name)
    } else {
        seq![(idx, name)] + ks
    }
}

/// Pushing a row with in-range indices keeps a channel well-formed.
proof fn lemma_bars_pushed_wf(
    bars: Seq<Seq<Seq<Option<usize>>>>,
    bar_idx: int,
    row: Seq<Option<usize>>,
)
    requires
        channel_wf(bars),
        0 <= bar_idx,
        forall|s: int| 0 <= s < row.len() ==> (#[trigger] row[s] matches Option::Some(x) ==> x < 1295),
    ensures
        channel_wf(bars_pushed(bars, bar_idx, row)),
        bars_pushed(bars, bar_idx, row).len() == if bars.len() < bar_idx + 1 {
            bar_idx + 1
        } else {
            bars.len() as int
        },
{
    let out = bars_pushed(bars, bar_idx, row);
    assert forall|b: int, r: int, s: int|
        0 <= b < out.len() && 0 <= r < out[b].len() && 0 <= s < out[b][r].len() implies ((
    #[trigger] out[b][r][s]) matches Option::Some(x) ==> x < 1295) by {
        if b == bar_idx && r == out[b].len() - 1 {
            assert(out[b][r] == row);
        } else if b < bars.len() {
            assert(out[b][r] == bars[b][r]);
            assert(bars[b][r][s] matches Option::Some(x) ==> x < 1295);
        }
    }
}

proof fn lemma_channels_pushed_at(
    cs: Seq<(u8, Seq<Seq<Seq<Option<usize>>>>)>,
    id: u8,
    bar_idx: int,
    row: Seq<Option<usize>>,
    j: int,
)
    requires
        0 <= j <= cs.len(),
        forall|k: int| 0 <= k < j ==> (#[trigger] cs[k]).0 < id,
        j < cs.len() ==> cs[j].0 >= id,
    ensures
        channels_pushed(cs, id, bar_idx, row) == if j < cs.len() && cs[j].0 == id {
            cs.take(j) + seq![(id, bars_pushed(cs[j].1, bar_idx, row))] + cs.skip(j + 1)
        } else {
            cs.take(j) + seq![
                (id, bars_pushed(Seq::<Seq<Seq<Option<usize>>>>::empty(), bar_idx, row)),
            ] + cs.skip(j)
        },
    decreases j,
{
    if j == 0 {
        if cs.len() == 0 {
            assert(channels_pushed(cs, id, bar_idx, row) =~= cs.take(0) + seq![
                (id, bars_pushed(Seq::<Seq<Seq<Option<usize>>>>::empty(), bar_idx, row)),
            ] + cs.skip(0));
        } else if cs[0].0 == id {
            assert(channels_pushed(cs, id, bar_idx, row) =~= cs.take(0) + seq![
                (id, bars_pushed(cs[0].1, bar_idx, row)),
            ] + cs.skip(1));
        } else {
            assert(cs[0].0 > id);
            assert(channels_pushed(cs, id, bar_idx, row) =~= cs.take(0) + seq![
                (id, bars_pushed(Seq::<Seq<Seq<Option<usize>>>>::empty(), bar_idx, row)),
            ] + cs.skip(0));
        }
    } else {
        let dl = cs.drop_first();
        assert(forall|k: int| 0 <= k < j - 1 ==> (#[trigger] dl[k]).0 < id);
        lemma_channels_pushed_at(dl, id, bar_idx, row, j - 1);
        assert(cs[0].0 < id);
        if j < cs.len() && cs[j].0 == id {
            assert(dl[j - 1] == cs[j]);
            assert(channels_pushed(cs, id, bar_idx, row) =~= cs.take(j) + seq![
                (id, bars_pushed(cs[j].1, bar_idx, row)),
            ] + cs.skip(j + 1)) by {
                assert(dl.take(j - 1) =~= cs.take(j).drop_first());
                assert(dl.skip(j) =~= cs.skip(j + 1));
            }
        } else {
            assert(channels_pushed(cs, id, bar_idx, row) =~= cs.take(j) + seq![
                (id, bars_pushed(Seq::<Seq<Seq<Option<usize>>>>::empty(), bar_idx, row)),
            ] + cs.skip(j)) by {
                assert(dl.take(j - 1) =~= cs.take(j).drop_first());
                assert(dl.skip(j - 1) =~= cs.skip(j));
            }
        }
    }
}

proof fn lemma_keysounds_put_at(ks: Seq<(usize, Seq<char>)>, idx: usize, name: Seq<char>, j: int)
    requires
        0 <= j <= ks.len(),
        forall|k: int| 0 <= k < j ==> (#[trigger] ks[k]).0 < idx,
        j < ks.len() ==> ks[j].0 >= idx,
    ensures
        keysounds_put(ks, idx, name) == if j < ks.len() && ks[j].0 == idx {
            ks.take(j) + seq![(idx, name)] + ks.skip(j + 1)
        } else {
            ks.take(j) + seq![(idx, name)] + ks.skip(j)
        },
    decreases j,
{
    if j == 0 {
        if ks.len() == 0 {
            assert(keysounds_put(ks, idx, name) =~= ks.take(0) + seq![(idx, name)] + ks.skip(0));
        } else if ks[0].0 == idx {
            assert(keysounds_put(ks, idx, name) =~= ks.take(0) + seq![(idx, name)] + ks.skip(1));
        } else {
            assert(ks[0].0 > idx);
            assert(keysounds_put(ks, idx, name) =~= ks.take(0) + seq![(idx, name)] + ks.skip(0));
        }
    } else {
        let dl = ks.drop_first();
        assert(forall|k: int| 0 <= k < j - 1 ==> (#[trigger] dl[k]).0 < idx);
        lemma_keysounds_put_at(dl, idx, name, j - 1);
        assert(ks[0].0 < idx);
        if j < ks.len() && ks[j].0 == idx {
            assert(dl[j - 1] == ks[j]);
            assert(keysounds_put(ks, idx, name) =~= ks.take(j) + seq![(idx, name)] + ks.skip(j + 1))
                by {
                assert(dl.take(j - 1) =~= ks.take(j).drop_first());
                assert(dl.skip(j) =~= ks.skip(j + 1));
            }
        } else {
            assert(keysounds_put(ks, idx, name) =~= ks.take(j) + seq![(idx, name)] + ks.skip(j))
                by {
                assert(dl.take(j - 1) =~= ks.take(j).drop_first());
                assert(dl.skip(j - 1) =~= ks.skip(j));
            }
        }
    }
}

/// The keysound table header lines.
pub open spec fn wav_lines(ks: Seq<(usize, Seq<char>)>) -> Seq<char>
    decreases ks.len(),
{
    if ks.len() == 0 {
        Seq::empty()
    } else {
        "#WAV"@ + code_of(ks[0].0 as int) + " "@ + ks[0].1 + ".wav\n"@ + wav_lines(
            ks.drop_first(),
        )
    }
}

/// All channel blocks, in stored order.
pub open spec fn channels_text(cs: Seq<(u8, Seq<Seq<Seq<Option<usize>>>>)>) -> Seq<char>
    decreases cs.len(),
{
    if cs.len() == 0 {
        Seq::empty()
    } else {
        channel_text(cs[0].0 as int, cs[0].1) + channels_text(cs.drop_first())
    }
}

/// The whole document: fixed header lines (the three text fields pass
/// through the Shift-JIS encoder), the keysound table, then every channel
/// block.
pub open spec fn bms_bytes(
    title: Seq<char>,
    genre: Seq<char>,
    artist: Seq<char>,
    total: u64,
    bpm: u32,
    ks: Seq<(usize, Seq<char>)>,
    cs: Seq<(u8, Seq<Seq<Seq<Option<usize>>>>)>,
) -> Seq<u8> {
    ascii_bytes("#PLAYER 1\n"@) + ascii_bytes("#TITLE "@) + sjis_of(title) + ascii_bytes("\n"@)
        + ascii_bytes("#GENRE "@) + sjis_of(genre) + ascii_bytes("\n"@) + ascii_bytes("#ARTIST "@)
        + sjis_of(artist) + ascii_bytes("\n"@) + ascii_bytes(
        "#TOTAL "@ + dec(total as int) + "\n"@ + "#BPM "@ + dec(bpm as int / 100) + "."@ + dec2(
            bpm as int % 100,
        ) + "\n"@ + "#PLAYLEVEL 1\n"@ + "#RANK 3\n"@ + wav_lines(ks) + channels_text(cs),
    )
}

/// Builder for the wire format: channels and keysound names keyed by their
/// numbers, tempo in hundredths of a BPM, and the header text fields.
#[derive(Debug)]
pub struct BmsWriter {
    pub channels: Vec<ChannelEntry>,
    pub keysounds: Vec<KeysoundEntry>,
    pub bpm: u32,
    pub total: u64,
    pub title: String,
    pub genre: String,
    pub artist: String,
}

impl BmsWriter {
    /// Everything the document formatter needs of the stored data: channel
    /// numbers of at most two digits, at most 999 bars each, and every
    /// stored index inside the two-digit base-36 range.
    pub open spec fn wf(&self) -> bool {
        &&& channels_sorted(cs_view(self.channels@))
        &&& forall|i: int|
            0 <= i < self.channels@.len() ==> (#[trigger] self.channels@[i]).id < 100
        &&& forall|i: int|
            0 <= i < self.channels@.len()
                ==> (#[trigger] self.channels@[i]).channel.bars@.len() <= 999
        &&& forall|i: int|
            0 <= i < self.channels@.len() ==> channel_wf(
                (#[trigger] self.channels@[i]).channel.bars.deep_view(),
            )
        &&& forall|i: int|
            0 <= i < self.keysounds@.len() ==> (#[trigger] self.keysounds@[i]).idx < 1295
    }

    pub fn new() -> (r: BmsWriter)
        ensures
            r.wf(),
            cs_view(r.channels@) == Seq::<(u8, Seq<Seq<Seq<Option<usize>>>>)>::empty(),
            ks_view(r.keysounds@) == Seq::<(usize, Seq<char>)>::empty(),
            r.bpm == 12000,
            r.total == 300,
            r.title@ == Seq::<char>::empty(),
            r.genre@ == Seq::<char>::empty(),
            r.artist@ == Seq::<char>::empty(),
    {
        let r = BmsWriter {
            channels: Vec::new(),
            keysounds: Vec::new(),
            bpm: 12000,
            total: 300,
            title: String::new(),
            genre: String::new(),
            artist: String::new(),
        };
        proof {
            assert(cs_view(r.channels@) =~= Seq::<(u8, Seq<Seq<Seq<Option<usize>>>>)>::empty());
            assert(ks_view(r.keysounds@) =~= Seq::<(usize, Seq<char>)>::empty());
        }
        r
    }

    pub fn set_artist(&mut self, artist: &str)
        ensures
            *final(self) == (BmsWriter { artist: final(self).artist, ..*old(self) }),
            final(self).artist@ == artist@,
    {
        self.artist = artist.to_owned();
    }

    pub fn set_title(&mut self, title: &str)
        ensures
            *final(self) == (BmsWriter { title: final(self).title, ..*old(self) }),
            final(self).title@ == title@,
    {
        self.title = title.to_owned();
    }

    pub fn set_genre(&mut self, genre: &str)
        ensures
            *final(self) == (BmsWriter { genre: final(self).genre, ..*old(self) }),
            final(self).genre@ == genre@,
    {
        self.genre = genre.to_owned();
    }

    /// Tempo in hundredths of a BPM (12000 stands for 120.00).
    pub fn set_bpm(&mut self, bpm: u32)
        ensures
            *final(self) == (BmsWriter { bpm, ..*old(self) }),
    {
        self.bpm = bpm;
    }

    pub fn set_total(&mut self, total: u64)
        ensures
            *final(self) == (BmsWriter { total, ..*old(self) }),
    {
        self.total = total;
    }

    /// Add one bar row to the channel with the given number, creating the
    /// channel in number order if it is new.
    #[verifier::loop_isolation(false)]
    pub fn push_channel(&mut self, bar_idx: usize, channel_id: u8, bar: Vec<Option<usize>>)
        requires
            old(self).wf(),
            bar_idx < 999,
            channel_id < 100,
            forall|s: int| 0 <= s < bar@.len() ==> (#[trigger] bar@[s] matches Option::Some(x) ==> x < 1295),
        ensures
            final(self).wf(),
            cs_view(final(self).channels@) == channels_pushed(
                cs_view(old(self).channels@),
                channel_id,
                bar_idx as int,
                bar@,
            ),
            final(self).keysounds == old(self).keysounds,
            final(self).bpm == old(self).bpm,
            final(self).total == old(self).total,
            final(self).title == old(self).title,
            final(self).genre == old(self).genre,
            final(self).artist == old(self).artist,
    {
        let ghost cs0 = cs_view(self.channels@);
        let mut j: usize = 0;
        while j < self.channels.len() && self.channels[j].id < channel_id
            invariant
                j <= self.channels@.len(),
                forall|k: int| 0 <= k < j ==> (#[trigger] self.channels@[k]).id < channel_id,
            decreases self.channels@.len() - j,
        {
            j = j + 1;
        }
        proof {
            assert(forall|k: int| 0 <= k < j ==> (#[trigger] cs0[k]).0 < channel_id);
            lemma_channels_pushed_at(cs0, channel_id, bar_idx as int, bar@, j as int);
        }
        if j < self.channels.len() && self.channels[j].id == channel_id {
            let mut e = self.channels.remove(j);
            proof {
                lemma_bars_pushed_wf(e.channel.bars.deep_view(), bar_idx as int, bar@);
            }
            e.channel.push_to_bar(bar_idx, bar);
            self.channels.insert(j, e);
            proof {
                assert(self.channels@ =~= old(self).channels@.update(
                    j as int,
                    self.channels@[j as int],
                ));
                assert(cs_view(self.channels@) =~= cs0.take(j as int) + seq![
                    (channel_id, bars_pushed(cs0[j as int].1, bar_idx as int, bar@)),
                ] + cs0.skip(j + 1)) by {
                    assert forall|k: int| 0 <= k < self.channels@.len() implies #[trigger] cs_view(
                        self.channels@,
                    )[k] == (cs0.take(j as int) + seq![
                        (channel_id, bars_pushed(cs0[j as int].1, bar_idx as int, bar@)),
                    ] + cs0.skip(j + 1))[k] by {
                        if k != j {
                            assert(self.channels@[k] == old(self).channels@[k]);
                        }
                    }
                }
            }
        } else {
            let mut ch = Channel::new();
            proof {
                lemma_bars_pushed_wf(ch.bars.deep_view(), bar_idx as int, bar@);
            }
            ch.push_to_bar(bar_idx, bar);
            let entry = ChannelEntry { id: channel_id, channel: ch };
            let ghost eview = (channel_id, entry.channel.bars.deep_view());
            self.channels.insert(j, entry);
            proof {
                assert(eview.1 == bars_pushed(
                    Seq::<Seq<Seq<Option<usize>>>>::empty(),
                    bar_idx as int,
                    bar@,
                ));
                assert(cs_view(self.channels@) =~= cs0.take(j as int) + seq![
                    (channel_id, bars_pushed(
                        Seq::<Seq<Seq<Option<usize>>>>::empty(),
                        bar_idx as int,
                        bar@,
                    )),
                ] + cs0.skip(j as int)) by {
                    assert forall|k: int| 0 <= k < self.channels@.len() implies #[trigger] cs_view(
                        self.channels@,
                    )[k] == (cs0.take(j as int) + seq![
                        (channel_id, bars_pushed(
                            Seq::<Seq<Seq<Option<usize>>>>::empty(),
                            bar_idx as int,
                            bar@,
                        )),
                    ] + cs0.skip(j as int))[k] by {
                        if k < j {
                            assert(self.channels@[k] == old(self).channels@[k]);
                        } else if k > j {
                            assert(self.channels@[k] == old(self).channels@[k - 1]);
                        }
                    }
                }
            }
        }
    }

    /// Name the keysound at table index `idx`; a later call for the same
    /// index replaces the name.
    #[verifier::loop_isolation(false)]
    pub fn set_keysound(&mut self, idx: usize, name: &str)
        requires
            old(self).wf(),
            idx < 1295,
        ensures
            final(self).wf(),
            ks_view(final(self).keysounds@) == keysounds_put(
                ks_view(old(self).keysounds@),
                idx,
                name@,
            ),
            final(self).channels == old(self).channels,
            final(self).bpm == old(self).bpm,
            final(self).total == old(self).total,
            final(self).title == old(self).title,
            final(self).genre == old(self).genre,
            final(self).artist == old(self).artist,
    {
        let ghost ks0 = ks_view(self.keysounds@);
        let mut j: usize = 0;
        while j < self.keysounds.len() && self.keysounds[j].idx < idx
            invariant
                j <= self.keysounds@.len(),
                forall|k: int| 0 <= k < j ==> (#[trigger] self.keysounds@[k]).idx < idx,
            decreases self.keysounds@.len() - j,
        {
            j = j + 1;
        }
        proof {
            assert(forall|k: int| 0 <= k < j ==> (#[trigger] ks0[k]).0 < idx);
            lemma_keysounds_put_at(ks0, idx, name@, j as int);
        }
        if j < self.keysounds.len() && self.keysounds[j].idx == idx {
            let _ = self.keysounds.remove(j);
            self.keysounds.insert(j, KeysoundEntry { idx, name: name.to_owned() });
            proof {
                assert(ks_view(self.keysounds@) =~= ks0.take(j as int) + seq![(idx, name@)]
                    + ks0.skip(j + 1)) by {
                    assert forall|k: int| 0 <= k < self.keysounds@.len() implies #[trigger] ks_view(
                        self.keysounds@,
                    )[k] == (ks0.take(j as int) + seq![(idx, name@)] + ks0.skip(j + 1))[k] by {
                        if k != j {
                            assert(self.keysounds@[k] == old(self).keysounds@[k]);
                        }
                    }
                }
            }
        } else {
            self.keysounds.insert(j, KeysoundEntry { idx, name: name.to_owned() });
            proof {
                assert(ks_view(self.keysounds@) =~= ks0.take(j as int) + seq![(idx, name@)]
                    + ks0.skip(j as int)) by {
                    assert forall|k: int| 0 <= k < self.keysounds@.len() implies #[trigger] ks_view(
                        self.keysounds@,
                    )[k] == (ks0.take(j as int) + seq![(idx, name@)] + ks0.skip(j as int))[k] by {
                        if k < j {
                            assert(self.keysounds@[k] == old(self).keysounds@[k]);
                        } else if k > j {
                            assert(self.keysounds@[k] == old(self).keysounds@[k - 1]);
                        }
                    }
                }
            }
        }
    }

    /// Emit the whole document.
    #[verifier::loop_isolation(false)]
    #[verifier::rlimit(30)]
    pub fn write(&self) -> (out: Vec<u8>)
        requires
            self.wf(),
        ensures
            out@ == bms_bytes(
                self.title@,
                self.genre@,
                self.artist@,
                self.total,
                self.bpm,
                ks_view(self.keysounds@),
                cs_view(self.channels@),
            ),
    {
        broadcast use vstd::seq_lib::group_seq_properties;

        let mut out: Vec<u8> = Vec::new();
        append_ascii(&mut out, "#PLAYER 1\n");
        append_ascii(&mut out, "#TITLE ");
        let mut tb = encode_shift_jis(self.title.as_str());
        out.append(&mut tb);
        append_ascii(&mut out, "\n");
        append_ascii(&mut out, "#GENRE ");
        let mut gb = encode_shift_jis(self.genre.as_str());
        out.append(&mut gb);
        append_ascii(&mut out, "\n");
        append_ascii(&mut out, "#ARTIST ");
        let mut ab = encode_shift_jis(self.artist.as_str());
        out.append(&mut ab);
        append_ascii(&mut out, "\n");

        let ghost head = out@;

        let mut tail = String::new();
        tail.append("#TOTAL ");
        push_dec(&mut tail, self.total);
        tail.append("\n");
        tail.append("#BPM ");
        push_dec(&mut tail, (self.bpm / 100) as u64);
        tail.append(".");
        push_digit(&mut tail, ((self.bpm / 10) % 10) as usize);
        push_digit(&mut tail, (self.bpm % 10) as usize);
        tail.append("\n");
        tail.append("#PLAYLEVEL 1\n");
        tail.append("#RANK 3\n");
        proof {
            assert(dec2(self.bpm as int % 100) =~= seq![
                bms_digits()[(self.bpm as int / 10) % 10],
                bms_digits()[self.bpm as int % 10],
            ]);
            assert(tail@ =~= "#TOTAL "@ + dec(self.total as int) + "\n"@ + "#BPM "@ + dec(
                self.bpm as int / 100,
            ) + "."@ + dec2(self.bpm as int % 100) + "\n"@ + "#PLAYLEVEL 1\n"@ + "#RANK 3\n"@);
        }
        let ghost fixed_tail = tail@;

        // Keysound table lines.
        let ghost ksv = ks_view(self.keysounds@);
        let mut i: usize = 0;
        while i < self.keysounds.len()
            invariant
                i <= ksv.len(),
                ksv == ks_view(self.keysounds@),
                self.wf(),
                tail@ == fixed_tail + wav_upto(ksv, i as int),
            decreases ksv.len() - i,
        {
            let ghost t0 = tail@;
            let e = &self.keysounds[i];
            tail.append("#WAV");
            let code = to_bms_index(e.idx);
            tail.append(code.as_str());
            tail.append(" ");
            tail.append(e.name.as_str());
            tail.append(".wav\n");
            proof {
                assert(ksv[i as int] == (e.idx, e.name@));
                assert(wav_upto(ksv, i + 1) =~= wav_upto(ksv, i as int) + ("#WAV"@ + code_of(
                    e.idx as int,
                ) + " "@ + e.name@ + ".wav\n"@));
                assert(tail@ =~= fixed_tail + wav_upto(ksv, i + 1));
            }
            i = i + 1;
        }
        proof {
            lemma_wav_upto_all(ksv);
        }

        // Channel blocks.
        let ghost csv = cs_view(self.channels@);
        let ghost with_wavs = tail@;
        let mut i: usize = 0;
        while i < self.channels.len()
            invariant
                i <= csv.len(),
                csv == cs_view(self.channels@),
                self.wf(),
                tail@ == with_wavs + channels_upto(csv, i as int),
            decreases csv.len() - i,
        {
            let e = &self.channels[i];
            let block = e.channel.write(e.id);
            tail.append(block.as_str());
            proof {
                assert(csv[i as int] == (e.id, e.channel.bars.deep_view()));
                assert(channels_upto(csv, i + 1) =~= channels_upto(csv, i as int) + channel_text(
                    e.id as int,
                    e.channel.bars.deep_view(),
                ));
                assert(tail@ =~= with_wavs + channels_upto(csv, i + 1));
            }
            i = i + 1;
        }
        proof {
            lemma_channels_upto_all(csv);
        }

        append_ascii(&mut out, tail.as_str());
        proof {
            assert(tail@ == fixed_tail + wav_lines(ksv) + channels_text(csv));
            assert(out@ =~= bms_bytes(
                self.title@,
                self.genre@,
                self.artist@,
                self.total,
                self.bpm,
                ksv,
                csv,
            )) by {
                assert(head =~= ascii_bytes("#PLAYER 1\n"@) + ascii_bytes("#TITLE "@) + sjis_of(
                    self.title@,
                ) + ascii_bytes("\n"@) + ascii_bytes("#GENRE "@) + sjis_of(self.genre@)
                    + ascii_bytes("\n"@) + ascii_bytes("#ARTIST "@) + sjis_of(self.artist@)
                    + ascii_bytes("\n"@));
                assert(ascii_bytes("#PLAYER 1\n"@ + Seq::<char>::empty()) =~= ascii_bytes(
                    "#PLAYER 1\n"@,
                ));
            }
        }
        out
    }
}

/// The first `i` keysound table lines.
pub open spec fn wav_upto(ks: Seq<(usize, Seq<char>)>, i: int) -> Seq<char>
    decreases i,
{
    if i <= 0 {
        Seq::empty()
    } else {
        wav_upto(ks, i - 1) + ("#WAV"@ + code_of(ks[i - 1].0 as int) + " "@ + ks[i - 1].1
            + ".wav\n"@)
    }
}

proof fn lemma_wav_upto_all(ks: Seq<(usize, Seq<char>)>)
    ensures
        wav_upto(ks, ks.len() as int) == wav_lines(ks),
    decreases ks.len(),
{
    if ks.len() > 0 {
        let dl = ks.drop_first();
        lemma_wav_upto_all(dl);
        lemma_wav_upto_shift(ks, dl.len() as int);
    }
}

proof fn lemma_wav_upto_shift(ks: Seq<(usize, Seq<char>)>, i: int)
    requires
        0 <= i <= ks.len() - 1,
    ensures
        wav_upto(ks, i + 1) == ("#WAV"@ + code_of(ks[0].0 as int) + " "@ + ks[0].1 + ".wav\n"@)
            + wav_upto(ks.drop_first(), i),
    decreases i,
{
    if i == 0 {
        assert(wav_upto(ks, 0) =~= Seq::<char>::empty());
        assert(wav_upto(ks, 1) =~= ("#WAV"@ + code_of(ks[0].0 as int) + " "@ + ks[0].1 + ".wav\n"@)
            + wav_upto(ks.drop_first(), 0));
    } else {
        lemma_wav_upto_shift(ks, i - 1);
        assert(ks.drop_first()[i - 1] == ks[i]);
        assert(wav_upto(ks, i + 1) =~= ("#WAV"@ + code_of(ks[0].0 as int) + " "@ + ks[0].1
            + ".wav\n"@) + wav_upto(ks.drop_first(), i));
    }
}

/// The first `i` channel blocks.
pub open spec fn channels_upto(cs: Seq<(u8, Seq<Seq<Seq<Option<usize>>>>)>, i: int) -> Seq<char>
    decreases i,
{
    if i <= 0 {
        Seq::empty()
    } else {
        channels_upto(cs, i - 1) + channel_text(cs[i - 1].0 as int, cs[i - 1].1)
    }
}

proof fn lemma_channels_upto_all(cs: Seq<(u8, Seq<Seq<Seq<Option<usize>>>>)>)
    ensures
        channels_upto(cs, cs.len() as int) == channels_text(cs),
    decreases cs.len(),
{
    if cs.len() > 0 {
        let dl = cs.drop_first();
        lemma_channels_upto_all(dl);
        lemma_channels_upto_shift(cs, dl.len() as int);
    }
}

proof fn lemma_channels_upto_shift(cs: Seq<(u8, Seq<Seq<Seq<Option<usize>>>>)>, i: int)
    requires
        0 <= i <= cs.len() - 1,
    ensures
        channels_upto(cs, i + 1) == channel_text(cs[0].0 as int, cs[0].1) + channels_upto(
            cs.drop_first(),
            i,
        ),
    decreases i,
{
    if i == 0 {
        assert(channels_upto(cs, 0) =~= Seq::<char>::empty());
        assert(channels_upto(cs, 1) =~= channel_text(cs[0].0 as int, cs[0].1) + channels_upto(
            cs.drop_first(),
            0,
        ));
    } else {
        lemma_channels_upto_shift(cs, i - 1);
        assert(cs.drop_first()[i - 1] == cs[i]);
        assert(channels_upto(cs, i + 1) =~= channel_text(cs[0].0 as int, cs[0].1) + channels_upto(
            cs.drop_first(),
            i,
        ));
    }
}

/// The first `k` cells of a row, as text.
pub open spec fn cells_upto(row: Seq<Option<usize>>, k: int) -> Seq<char>
    decreases k,
{
    if k <= 0 {
        Seq::empty()
    } else {
        cells_upto(row, k - 1) + cell_of(row[k - 1])
    }
}

proof fn lemma_cells_upto_all(row: Seq<Option<usize>>)
    ensures
        cells_upto(row, row.len() as int) == cells_text(row),
    decreases row.len(),
{
    lemma_cells_upto_split(row, row.len() as int);
}

proof fn lemma_cells_upto_split(row: Seq<Option<usize>>, k: int)
    requires
        0 <= k <= row.len(),
    ensures
        cells_upto(row, k) + cells_from(row, k) == cells_text(row),
    decreases k,
{
    if k == 0 {
        assert(cells_from(row, 0) =~= cells_text(row)) by {
            lemma_cells_from_zero(row);
        }
        assert(cells_upto(row, 0) + cells_from(row, 0) =~= cells_from(row, 0));
    } else {
        lemma_cells_upto_split(row, k - 1);
        assert(cells_from(row, k - 1) == cell_of(row[k - 1]) + cells_from(row, k));
        assert(cells_upto(row, k) + cells_from(row, k) =~= cells_upto(row, k - 1) + cells_from(
            row,
            k - 1,
        ));
    }
}

/// The cells from position `k` on.
pub open spec fn cells_from(row: Seq<Option<usize>>, k: int) -> Seq<char>
    decreases row.len() - k,
{
    if k < 0 || k >= row.len() {
        Seq::empty()
    } else {
        cell_of(row[k]) + cells_from(row, k + 1)
    }
}

proof fn lemma_cells_from_zero(row: Seq<Option<usize>>)
    ensures
        cells_from(row, 0) == cells_text(row),
    decreases row.len(),
{
    if row.len() > 0 {
        lemma_cells_from_zero(row.drop_first());
        assert forall|k: int| 0 <= k implies cells_from(row.drop_first(), k) == cells_from(
            row,
            k + 1,
        ) by {
            lemma_cells_from_shift(row, k);
        }
        assert(cells_from(row, 0) == cell_of(row[0]) + cells_from(row, 1));
    }
}

proof fn lemma_cells_from_shift(row: Seq<Option<usize>>, k: int)
    requires
        0 <= k,
        row.len() >= 1,
    ensures
        cells_from(row.drop_first(), k) == cells_from(row, k + 1),
    decreases row.len() - k,
{
    let dl = row.drop_first();
    if k < row.len() - 1 {
        lemma_cells_from_shift(row, k + 1);
        assert(dl[k] == row[k + 1]);
        assert(cells_from(dl, k) == cell_of(dl[k]) + cells_from(dl, k + 1));
        assert(cells_from(row, k + 1) == cell_of(row[k + 1]) + cells_from(row, k + 2));
    } else {
        assert(cells_from(dl, k) =~= Seq::<char>::empty());
        assert(cells_from(row, k + 1) =~= Seq::<char>::empty());
    }
}

/// The first `r` lines of a bar's rows.
pub open spec fn bar_lines_upto(bar_no: int, chan: int, rows: Seq<Seq<Option<usize>>>, r: int) -> Seq<
    char,
>
    decreases r,
{
    if r <= 0 {
        Seq::empty()
    } else {
        bar_lines_upto(bar_no, chan, rows, r - 1) + line_text(bar_no, chan, rows[r - 1])
    }
}

proof fn lemma_bar_lines_upto_all(bar_no: int, chan: int, rows: Seq<Seq<Option<usize>>>)
    ensures
        bar_lines_upto(bar_no, chan, rows, rows.len() as int) == bar_lines(bar_no, chan, rows),
    decreases rows.len(),
{
    if rows.len() > 0 {
        let dl = rows.drop_first();
        lemma_bar_lines_upto_all(bar_no, chan, dl);
        lemma_bar_lines_upto_shift(bar_no, chan, rows, dl.len() as int);
        assert(bar_lines(bar_no, chan, rows) == line_text(bar_no, chan, rows[0]) + bar_lines(
            bar_no,
            chan,
            dl,
        ));
    }
}

proof fn lemma_bar_lines_upto_shift(bar_no: int, chan: int, rows: Seq<Seq<Option<usize>>>, r: int)
    requires
        0 <= r <= rows.len() - 1,
    ensures
        bar_lines_upto(bar_no, chan, rows, r + 1) == line_text(bar_no, chan, rows[0])
            + bar_lines_upto(bar_no, chan, rows.drop_first(), r),
    decreases r,
{
    if r == 0 {
        assert(bar_lines_upto(bar_no, chan, rows, 0) =~= Seq::<char>::empty());
        assert(bar_lines_upto(bar_no, chan, rows, 1) =~= line_text(bar_no, chan, rows[0]));
        assert(line_text(bar_no, chan, rows[0]) + Seq::<char>::empty() =~= line_text(
            bar_no,
            chan,
            rows[0],
        ));
    } else {
        lemma_bar_lines_upto_shift(bar_no, chan, rows, r - 1);
        assert(rows.drop_first()[r - 1] == rows[r]);
        assert(bar_lines_upto(bar_no, chan, rows, r + 1) =~= line_text(bar_no, chan, rows[0])
            + bar_lines_upto(bar_no, chan, rows.drop_first(), r));
    }
}

} // verus!
