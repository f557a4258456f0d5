use vstd::prelude::*;

use crate::rng::{rng_output, rng_skip, rng_step, RNG};

verus! {

/// 2^k for small non-negative k (and 1 for k <= 0).
pub open spec fn pow2i(k: int) -> int
    decreases k,
{
    if k <= 0 {
        1
    } else {
        2 * pow2i(k - 1)
    }
}

/// Row `i` of the expanded density table, built from the per-subdivision
/// frequency list `freq` (coarsest first): walking `freq` from the finest
/// level backwards, level `j` (0 = finest) contributes its frequency to every
/// slot whose index is a multiple of 2^j.  Entries therefore appear finest
/// first.  `expand_row_upto` is the partial row after the `j` finest levels.
pub open spec fn expand_row_upto(freq: Seq<u64>, i: int, j: int) -> Seq<u64>
    decreases j,
{
    if j <= 0 {
        Seq::empty()
    } else {
        expand_row_upto(freq, i, j - 1)
            + (if i % pow2i(j - 1) == 0 {
                seq![freq[freq.len() - j]]
            } else {
                Seq::<u64>::empty()
            })
    }
}

pub open spec fn expand_row(freq: Seq<u64>, i: int) -> Seq<u64> {
    expand_row_upto(freq, i, freq.len() as int)
}

/// The full expanded table: one row per sixteenth-note slot, 2^(levels-1)
/// slots in all.
pub open spec fn expand_table(freq: Seq<u64>) -> Seq<Seq<u64>> {
    Seq::new(pow2i(freq.len() - 1) as nat, |i: int| expand_row(freq, i))
}

/// One frequency entry's contribution to a note count, given one draw `r`
/// of the generator: a guaranteed `d / 100` notes plus one more when the
/// fractional percentage `d % 100` beats a uniform draw from 0..99.
pub open spec fn count_step(d: u64, r: u64) -> int {
    d / 100 + if d % 100 > r % 100 {
        1int
    } else {
        0int
    }
}

/// The note count a whole row yields, drawing once per entry, front to back.
pub open spec fn draw_total(row: Seq<u64>, rng: RNG) -> int
    decreases row.len(),
{
    if row.len() == 0 {
        0
    } else {
        count_step(row[0], rng_output(rng)) + draw_total(row.drop_first(), rng_step(rng))
    }
}

/// The largest note count a row can ever yield, whatever the draws.
pub open spec fn max_total(row: Seq<u64>) -> int
    decreases row.len(),
{
    if row.len() == 0 {
        0
    } else {
        (row[0] / 100 + 1) + max_total(row.drop_first())
    }
}

pub proof fn lemma_rng_skip_step(r: RNG, n: nat)
    ensures
        rng_skip(r, n + 1) == rng_step(rng_skip(r, n)),
    decreases n,
{
    assert(rng_skip(r, n + 1) == rng_skip(rng_step(r), n));
    if n == 0 {
        assert(rng_skip(rng_step(r), 0) == rng_step(r));
        assert(rng_skip(r, 0) == r);
    } else {
        lemma_rng_skip_step(rng_step(r), (n - 1) as nat);
    }
}

pub proof fn lemma_draw_le_max(row: Seq<u64>, rng: RNG)
    ensures
        0 <= draw_total(row, rng) <= max_total(row),
    decreases row.len(),
{
    if row.len() > 0 {
        lemma_draw_le_max(row.drop_first(), rng_step(rng));
    }
}

/// Expand a frequency list (one entry per power-of-two subdivision level,
/// coarsest first) into the per-slot density table.
pub(crate) fn expand_power_of_two(freq: &[u64]) -> (table: Vec<Vec<u64>>)
    requires
        1 <= freq@.len() <= 5,
    ensures
        table.deep_view() == expand_table(freq@),
{
    let n = freq.len();
    let mut size: usize = 1;
    let mut k: usize = 0;
    while k < n - 1
        invariant
            k <= n - 1,
            n == freq@.len(),
            1 <= n <= 5,
            size == pow2i(k as int),
            size <= 16,
        decreases n - 1 - k,
    {
        proof {
            lemma_pow2i_small();
            lemma_pow2i_le(k + 1, 4);
            assert(pow2i(k + 1) == 2 * pow2i(k as int));
        }
        size = size * 2;
        k = k + 1;
    }

    let mut table: Vec<Vec<u64>> = Vec::new();
    let mut i: usize = 0;
    while i < size
        invariant
            i <= size,
            n == freq@.len(),
            1 <= n <= 5,
            size == pow2i(n - 1),
            table.deep_view().len() == i as int,
            forall|t: int|
                0 <= t < i ==> table.deep_view()[t] == #[trigger] expand_row(freq@, t),
        decreases size - i,
    {
        let mut row: Vec<u64> = Vec::new();
        let mut period: usize = 1;
        let mut j: usize = 0;
        while j < n
            invariant
                j <= n,
                n == freq@.len(),
                1 <= n <= 5,
                i < size,
                size == pow2i(n - 1),
                period == pow2i(j as int),
                1 <= period <= 32,
                row@ == expand_row_upto(freq@, i as int, j as int),
            decreases n - j,
        {
            proof {
                lemma_pow2i_small();
                lemma_pow2i_le(j + 1, 5);
                assert(pow2i(j + 1) == 2 * pow2i(j as int));
                if i as int % pow2i(j as int) == 0 {
                    assert(expand_row_upto(freq@, i as int, j + 1) =~= row@ + seq![
                        freq@[n - 1 - j],
                    ]);
                } else {
                    assert(expand_row_upto(freq@, i as int, j + 1) =~= row@);
                }
            }
            if i % period == 0 {
                row.push(freq[n - 1 - j]);
            }
            period = period * 2;
            j = j + 1;
        }
        table.push(row);
        i = i + 1;
    }
    assert(table.deep_view() =~= expand_table(freq@));
    table
}

proof fn lemma_pow2i_le(a: int, b: int)
    requires
        a <= b,
    ensures
        1 <= pow2i(a) <= pow2i(b),
    decreases b - a, b,
{
    if a == b {
        if b <= 0 {
        } else {
            lemma_pow2i_le(a - 1, b - 1);
        }
    } else {
        lemma_pow2i_le(a, b - 1);
        lemma_pow2i_le(b - 1, b - 1);
    }
}

/// The first few powers of two, unfolded for the small loops below.
proof fn lemma_pow2i_small()
    ensures
        pow2i(0) == 1,
        pow2i(1) == 2,
        pow2i(2) == 4,
        pow2i(3) == 8,
        pow2i(4) == 16,
        pow2i(5) == 32,
{
    assert(pow2i(0) == 1);
    assert(pow2i(1) == 2);
    assert(pow2i(2) == 4);
    assert(pow2i(3) == 8);
    assert(pow2i(4) == 16);
    assert(pow2i(5) == 32);
}

/// Draw the note count of slot `index` from table `rows`, advancing `rng`
/// once per entry of the chosen row.
pub(crate) fn table_draw(rows: &Vec<Vec<u64>>, index: usize, rng: &mut RNG) -> (c: u64)
    requires
        rows@.len() > 0,
        max_total(rows.deep_view()[index as int % rows@.len() as int]) <= u64::MAX,
    ensures
        c as int == draw_total(rows.deep_view()[index as int % rows@.len() as int], *old(rng)),
        *final(rng) == rng_skip(
            *old(rng),
            rows.deep_view()[index as int % rows@.len() as int].len(),
        ),
{
    let row = &rows[index % rows.len()];
    let ghost rowv = rows.deep_view()[index as int % rows@.len() as int];
    assert(row@ =~= rowv);
    let ghost rng0 = *rng;
    proof {
        assert(rowv.skip(0) =~= rowv);
        assert(rng_skip(rng0, 0) == rng0);
    }
    let mut acc: u64 = 0;
    let mut j: usize = 0;
    while j < row.len()
        invariant
            j <= row@.len(),
            rowv == row@,
            acc as int == draw_total(rowv, rng0) - draw_total(
                rowv.skip(j as int),
                rng_skip(rng0, j as nat),
            ),
            *rng == rng_skip(rng0, j as nat),
            max_total(rowv) <= u64::MAX,
        decreases row@.len() - j,
    {
        let ghost rem = rowv.skip(j as int);
        proof {
            assert(rem[0] == rowv[j as int]);
            assert(rem.drop_first() =~= rowv.skip(j + 1));
            lemma_draw_le_max(rowv, rng0);
            lemma_draw_le_max(rowv.skip(j + 1), rng_skip(rng0, (j + 1) as nat));
            lemma_rng_skip_step(rng0, j as nat);
            lemma_max_le(rowv, j as int);
        }
        let d = row[j];
        let r = rng.next();
        let extra: u64 = if d % 100 > r % 100 {
            1
        } else {
            0
        };
        acc = acc + d / 100 + extra;
        j = j + 1;
    }
    assert(rowv.skip(rowv.len() as int) =~= Seq::<u64>::empty());
    acc
}

/// `draw_total(row) - draw_total(row.skip(j+1))` never exceeds `max_total(row)`;
/// stated through the partial maxima so the loop above can bound its sum.
proof fn lemma_max_le(row: Seq<u64>, j: int)
    requires
        0 <= j < row.len(),
    ensures
        max_total(row.skip(j)) <= max_total(row),
        max_total(row.skip(j)) == (row[j] / 100 + 1) + max_total(row.skip(j + 1)),
    decreases j,
{
    assert(row.skip(j).drop_first() =~= row.skip(j + 1));
    assert(row.skip(j)[0] == row[j]);
    if j > 0 {
        assert(row.drop_first().skip(j - 1) =~= row.skip(j));
        assert(row.drop_first().skip(j) =~= row.skip(j + 1));
        lemma_max_le(row.drop_first(), j - 1);
    }
}

/// The per-slot expected-note-count table: for each sixteenth-note slot of a
/// bar, the list of percentage-scaled frequencies that apply to that slot.
#[derive(PartialEq, Debug, Clone)]
pub struct ChordDensity {
    density_seq: Vec<Vec<u64>>,
}

impl View for ChordDensity {
    type V = Seq<Seq<u64>>;

    closed spec fn view(&self) -> Seq<Seq<u64>> {
        self.density_seq.deep_view()
    }
}

impl ChordDensity {
    /// The table rows never overflow a `u64` note count, and there is at
    /// least one row to cycle through.
    pub open spec fn wf(&self) -> bool {
        &&& self@.len() > 0
        &&& forall|k: int| 0 <= k < self@.len() ==> max_total(#[trigger] self@[k]) <= u64::MAX
    }

    pub fn new(density_seq: Vec<Vec<u64>>) -> (r: ChordDensity)
        ensures
            r@ == density_seq.deep_view(),
    {
        ChordDensity { density_seq }
    }

    /// Expand a frequency list (coarsest subdivision first, e.g. whole notes
    /// down to sixteenth notes) into one row per sixteenth-note slot: level
    /// `j` from the finest applies to every slot index divisible by 2^j.
    pub fn from_power_of_two(freq: &[u64]) -> (r: ChordDensity)
        requires
            1 <= freq@.len() <= 5,
        ensures
            r@ == expand_table(freq@),
            r.wf(),
    {
        let table = expand_power_of_two(freq);
        let r = ChordDensity { density_seq: table };
        proof {
            lemma_expand_table_wf(freq@);
        }
        r
    }

    /// How many notes slot `index` asks for this time round: each applicable
    /// frequency `d` contributes `d / 100` notes plus one more with
    /// probability `(d % 100) / 100`, decided by one generator draw each.
    pub fn generate_chord_density(&self, index: usize, rng: &mut RNG) -> (c: u64)
        requires
            self.wf(),
        ensures
            c as int == draw_total(self@[index as int % self@.len() as int], *old(rng)),
            *final(rng) == rng_skip(*old(rng), self@[index as int % self@.len() as int].len()),
    {
        table_draw(&self.density_seq, index, rng)
    }

    /// The raw table rows, finest-applicable frequency first in each row.
    pub fn rows(&self) -> (r: &Vec<Vec<u64>>)
        ensures
            r.deep_view() == self@,
    {
        &self.density_seq
    }
}

/// The comma-separated fields of the text from position `i` on, with `cur`
/// the partial field read so far: a comma closes the current field, the end
/// of the text closes the last one.
pub open spec fn split_acc(s: Seq<char>, i: int, cur: Seq<char>) -> Seq<Seq<char>>
    decreases s.len() - i,
{
    if i < 0 || i >= s.len() {
        seq![cur]
    } else if s[i] == ',' {
        seq![cur] + split_acc(s, i + 1, Seq::<char>::empty())
    } else {
        split_acc(s, i + 1, cur.push(s[i]))
    }
}

/// The comma-separated fields of a text; one more field than there are
/// commas, empty fields included.
pub open spec fn fields_of(s: Seq<char>) -> Seq<Seq<char>> {
    split_acc(s, 0, Seq::<char>::empty())
}

pub open spec fn is_digit(c: char) -> bool {
    '0' <= c && c <= '9'
}

pub open spec fn all_digits(s: Seq<char>) -> bool {
    forall|i: int| 0 <= i < s.len() ==> is_digit(#[trigger] s[i])
}

/// The value of a decimal numeral.
pub open spec fn dec_value(s: Seq<char>) -> int
    decreases s.len(),
{
    if s.len() == 0 {
        0
    } else {
        dec_value(s.drop_last()) * 10 + (s.last() as int - '0' as int)
    }
}

/// A field parses as a `u64` when it is a non-empty run of digits whose
/// value fits.
pub open spec fn field_ok(s: Seq<char>) -> bool {
    s.len() > 0 && all_digits(s) && dec_value(s) <= u64::MAX
}

/// A density argument is five comma-separated `u64` numerals.
pub open spec fn density_input_ok(s: Seq<char>) -> bool {
    &&& fields_of(s).len() == 5
    &&& forall|i: int| 0 <= i < 5 ==> field_ok(#[trigger] fields_of(s)[i])
}

/// The parsed values of the fields.
pub open spec fn field_values(fs: Seq<Seq<char>>) -> Seq<u64> {
    fs.map_values(|f: Seq<char>| dec_value(f) as u64)
}

/// Parse one decimal `u64` numeral.
#[verifier::loop_isolation(false)]
pub fn parse_u64(s: &str) -> (r: Option<u64>)
    ensures
        r matches Option::Some(v) <==> field_ok(s@),
        r matches Option::Some(v) ==> v as int == dec_value(s@),
{
    let n = s.unicode_len();
    if n == 0 {
        return Option::None;
    }
    let mut acc: u64 = 0;
    let mut i: usize = 0;
    while i < n
        invariant
            i <= n,
            n == s@.len(),
            acc as int == dec_value(s@.take(i as int)),
            all_digits(s@.take(i as int)),
        decreases n - i,
    {
        let c = s.get_char(i);
        if c < '0' || c > '9' {
            proof {
                assert(s@.take(i + 1).last() == c);
                assert(!is_digit(s@[i as int]));
            }
            return Option::None;
        }
        let d: u32 = (c as u32) - ('0' as u32);
        let step = match acc.checked_mul(10) {
            Option::Some(t) => t.checked_add(d as u64),
            Option::None => Option::None,
        };
        match step {
            Option::Some(t) => {
                proof {
                    assert(s@.take(i + 1).drop_last() =~= s@.take(i as int));
                    assert(s@.take(i + 1).last() == s@[i as int]);
                }
                acc = t;
            },
            Option::None => {
                // The numeral no longer fits: its full value cannot either.
                proof {
                    assert(s@.take(i + 1).drop_last() =~= s@.take(i as int));
                    assert(s@.take(i + 1).last() == s@[i as int]);
                    assert(dec_value(s@.take(i + 1)) > u64::MAX);
                    if all_digits(s@) {
                        lemma_dec_value_grows(s@, i + 1);
                    }
                }
                return Option::None;
            },
        }
        i = i + 1;
    }
    proof {
        assert(s@.take(n as int) =~= s@);
    }
    Option::Some(acc)
}

/// A longer digit prefix never shrinks the value, so an overflowing prefix
/// sinks the whole numeral.
proof fn lemma_dec_value_grows(s: Seq<char>, i: int)
    requires
        0 <= i <= s.len(),
        all_digits(s),
    ensures
        dec_value(s.take(i)) <= dec_value(s),
    decreases s.len() - i,
{
    if i < s.len() {
        lemma_dec_value_grows(s, i + 1);
        assert(s.take(i + 1).drop_last() =~= s.take(i));
        assert(s.take(i + 1).last() == s[i]);
        assert(is_digit(s[i]));
        lemma_dec_value_nonneg(s.take(i));
        assert(dec_value(s.take(i)) <= dec_value(s.take(i)) * 10 + (s[i] as int - '0' as int))
            by (nonlinear_arith)
            requires
                dec_value(s.take(i)) >= 0,
                s[i] as int - '0' as int >= 0,
        ;
    } else {
        assert(s.take(i) =~= s);
    }
}

proof fn lemma_dec_value_nonneg(s: Seq<char>)
    requires
        all_digits(s),
    ensures
        dec_value(s) >= 0,
    decreases s.len(),
{
    if s.len() > 0 {
        assert(forall|i: int| 0 <= i < s.drop_last().len() ==> s.drop_last()[i] == s[i]);
        lemma_dec_value_nonneg(s.drop_last());
        assert(is_digit(s.last()));
        assert(dec_value(s.drop_last()) * 10 >= 0) by (nonlinear_arith)
            requires
                dec_value(s.drop_last()) >= 0,
        ;
    }
}

/// Split a text at its commas.
#[verifier::loop_isolation(false)]
fn split_commas(s: &str) -> (r: Vec<String>)
    ensures
        r@.map_values(|f: String| f@) == fields_of(s@),
{
    let n = s.unicode_len();
    let mut out: Vec<String> = Vec::new();
    let mut field = String::new();
    let mut i: usize = 0;
    let ghost full = s@;
    while i < n
        invariant
            i <= n,
            n == s@.len(),
            out@.map_values(|f: String| f@) + split_acc(full, i as int, field@) == fields_of(
                full,
            ),
        decreases n - i,
    {
        let ghost out_b = out@.map_values(|f: String| f@);
        let ghost cur_b = field@;
        let c = s.get_char(i);
        if c == ',' {
            out.push(field);
            field = String::new();
            proof {
                assert(split_acc(full, i as int, cur_b) == seq![cur_b] + split_acc(
                    full,
                    i + 1,
                    Seq::<char>::empty(),
                ));
                assert(out@.map_values(|f: String| f@) =~= out_b.push(cur_b));
                assert(out@.map_values(|f: String| f@) + split_acc(
                    full,
                    i + 1,
                    Seq::<char>::empty(),
                ) =~= fields_of(full));
            }
        } else {
            let piece = s.substring_char(i, i + 1);
            field.append(piece);
            proof {
                assert(piece@ =~= seq![full[i as int]]);
                assert(field@ =~= cur_b.push(full[i as int]));
                assert(split_acc(full, i as int, cur_b) == split_acc(
                    full,
                    i + 1,
                    cur_b.push(full[i as int]),
                ));
            }
        }
        i = i + 1;
    }
    let ghost out_b = out@.map_values(|f: String| f@);
    let ghost cur_b = field@;
    out.push(field);
    proof {
        assert(split_acc(full, n as int, cur_b) == seq![cur_b]);
        assert(out@.map_values(|f: String| f@) =~= out_b.push(cur_b));
        assert(out@.map_values(|f: String| f@) =~= out_b + seq![cur_b]);
    }
    out
}

/// Parse a comma-separated density argument: exactly five `u64` numerals,
/// expanded into the per-slot table; anything else is rejected.
#[verifier::loop_isolation(false)]
pub fn parse_density(input: &str) -> (r: Option<ChordDensity>)
    ensures
        r matches Option::Some(d) <==> density_input_ok(input@),
        r matches Option::Some(d) ==> (d@ == expand_table(field_values(fields_of(input@)))
            && d.wf()),
{
    let fields = split_commas(input);
    if fields.len() != 5 {
        return Option::None;
    }
    let mut values: Vec<u64> = Vec::new();
    let mut i: usize = 0;
    while i < fields.len()
        invariant
            i <= fields@.len(),
            fields@.len() == 5,
            fields@.map_values(|f: String| f@) == fields_of(input@),
            values@.len() == i,
            forall|k: int| 0 <= k < i ==> field_ok(#[trigger] fields_of(input@)[k]),
            forall|k: int|
                0 <= k < i ==> #[trigger] values@[k] as int == dec_value(fields_of(input@)[k]),
        decreases fields@.len() - i,
    {
        let parsed = parse_u64(fields[i].as_str());
        proof {
            assert(fields@[i as int]@ == fields_of(input@)[i as int]);
        }
        match parsed {
            Option::Some(v) => {
                values.push(v);
            },
            Option::None => {
                return Option::None;
            },
        }
        i = i + 1;
    }
    proof {
        assert(values@ =~= field_values(fields_of(input@)));
    }
    Option::Some(ChordDensity::from_power_of_two(values.as_slice()))
}

/// Every expanded row stays well inside the `u64` count bound: a row holds at
/// most 5 entries, each contributing at most `u64::MAX / 100 + 1`.
pub proof fn lemma_expand_table_wf(freq: Seq<u64>)
    requires
        1 <= freq.len() <= 5,
    ensures
        forall|k: int|
            0 <= k < expand_table(freq).len() ==> max_total(#[trigger] expand_table(freq)[k])
                <= u64::MAX,
        expand_table(freq).len() == pow2i(freq.len() - 1),
        expand_table(freq).len() > 0,
{
    assert forall|k: int| 0 <= k < expand_table(freq).len() implies max_total(
        #[trigger] expand_table(freq)[k],
    ) <= u64::MAX by {
        assert(expand_table(freq)[k] == expand_row(freq, k));
        lemma_row_max(freq, k, freq.len() as int);
        assert(freq.len() as int * (u64::MAX / 100 + 1) <= 5 * (u64::MAX / 100 + 1))
            by (nonlinear_arith)
            requires
                freq.len() <= 5,
        ;
        assert(max_total(expand_row(freq, k)) <= 5 * (u64::MAX / 100 + 1));
    }
    lemma_pow2i_le(0, freq.len() - 1);
}

proof fn lemma_row_max(freq: Seq<u64>, i: int, j: int)
    requires
        0 <= j <= freq.len() <= 5,
    ensures
        expand_row_upto(freq, i, j).len() <= j,
        max_total(expand_row_upto(freq, i, j)) <= j * (u64::MAX / 100 + 1),
    decreases j,
{
    if j > 0 {
        lemma_row_max(freq, i, j - 1);
        let prev: Seq<u64> = expand_row_upto(freq, i, j - 1);
        if i % pow2i(j - 1) == 0 {
            let f: u64 = freq[freq.len() - j];
            assert(expand_row_upto(freq, i, j) == prev + seq![f]);
            lemma_max_total_push(prev, f);
            vstd::arithmetic::div_mod::lemma_div_is_ordered(f as int, u64::MAX as int, 100);
            assert((j - 1) * (u64::MAX / 100 + 1) + (u64::MAX / 100 + 1) == j * (u64::MAX / 100
                + 1)) by (nonlinear_arith);
        } else {
            assert(expand_row_upto(freq, i, j) =~= prev);
            assert((j - 1) * (u64::MAX / 100 + 1) <= j * (u64::MAX / 100 + 1))
                by (nonlinear_arith)
                requires
                    j >= 1,
            ;
        }
    }
}

proof fn lemma_max_total_push(row: Seq<u64>, d: u64)
    ensures
        max_total(row + seq![d]) == max_total(row) + d / 100 + 1,
    decreases row.len(),
{
    assert((row + seq![d]).len() == row.len() + 1);
    assert(max_total(row + seq![d]) == ((row + seq![d])[0] / 100 + 1) + max_total(
        (row + seq![d]).drop_first(),
    ));
    if row.len() == 0 {
        assert((row + seq![d])[0] == d);
        assert((row + seq![d]).drop_first() =~= Seq::<u64>::empty());
        assert(max_total(Seq::<u64>::empty()) == 0);
    } else {
        assert((row + seq![d])[0] == row[0]);
        assert((row + seq![d]).drop_first() =~= row.drop_first() + seq![d]);
        lemma_max_total_push(row.drop_first(), d);
    }
}

} // verus!
