//! The stored form of a composition table.
//!
//! A table is written as a sequence of 64-bit words, each as eight bytes,
//! least significant first: the composition, the number of trajectories,
//! then for each trajectory its number of samples followed by five words per
//! sample (mass, age, log luminosity, log temperature, log radius). Signed
//! values are stored in two's complement.

use vstd::prelude::*;
use vstd::bytes::{
    lemma_auto_spec_u64_to_from_le_bytes, spec_u64_from_le_bytes, spec_u64_to_le_bytes,
    u64_from_le_bytes, u64_to_le_bytes,
};
use vstd::slice::slice_subrange;
use crate::data::{table_view, valid_table, ParsecData};
use crate::error::ParsecAccessError;
use crate::line::ParsecLine;
use crate::trajectory::Trajectory;

verus! {

/// The words `ws`, eight bytes each, least significant byte first.
pub open spec fn le_bytes(ws: Seq<u64>) -> Seq<u8> {
    Seq::new((8 * ws.len()) as nat, |q: int| spec_u64_to_le_bytes(ws[q / 8])[q % 8])
}

/// A signed value as a word, in two's complement.
pub open spec fn word_of(x: i64) -> u64 {
    #[verifier::truncate]
    (x as u64)
}

/// The signed value that a word holds in two's complement.
pub open spec fn signed_of(w: u64) -> i64 {
    #[verifier::truncate]
    (w as i64)
}

proof fn lemma_twos_complement(x: i64, w: u64)
    ensures
        signed_of(word_of(x)) == x,
        word_of(signed_of(w)) == w,
{
    assert(((#[verifier::truncate] (x as u64)) as i64) == x) by (bit_vector);
    assert(((#[verifier::truncate] (w as i64)) as u64) == w) by (bit_vector);
}

fn to_word(x: i64) -> (r: u64)
    ensures
        r == word_of(x),
{
    #[verifier::truncate]
    (x as u64)
}

fn from_word(w: u64) -> (r: i64)
    ensures
        r == signed_of(w),
{
    #[verifier::truncate]
    (w as i64)
}

/// Field `f` of a sample as a word.
pub open spec fn sample_word(p: ParsecLine, f: int) -> u64 {
    if f == 0 {
        word_of(p.mass)
    } else if f == 1 {
        word_of(p.age)
    } else if f == 2 {
        word_of(p.log_luminosity)
    } else if f == 3 {
        word_of(p.log_temperature)
    } else {
        word_of(p.log_radius)
    }
}

/// The five words of each sample, in order.
pub open spec fn samples_words(t: Seq<ParsecLine>) -> Seq<u64> {
    Seq::new((5 * t.len()) as nat, |q: int| sample_word(t[q / 5], q % 5))
}

/// A trajectory: its number of samples, then their words.
pub open spec fn trajectory_words(t: Seq<ParsecLine>) -> Seq<u64> {
    seq![t.len() as u64] + samples_words(t)
}

/// The trajectories one after another.
pub open spec fn trajectories_words(ts: Seq<Seq<ParsecLine>>) -> Seq<u64>
    decreases ts.len(),
{
    if ts.len() == 0 {
        seq![]
    } else {
        trajectory_words(ts[0]) + trajectories_words(ts.skip(1))
    }
}

/// A table: its composition, its number of trajectories, then these.
pub open spec fn table_words(z: i64, ts: Seq<Seq<ParsecLine>>) -> Seq<u64> {
    seq![word_of(z), ts.len() as u64] + trajectories_words(ts)
}

/// The stored form of a table.
pub open spec fn encoding(z: i64, ts: Seq<Seq<ParsecLine>>) -> Seq<u8> {
    le_bytes(table_words(z, ts))
}

/// Every count of a table fits a word.
pub open spec fn counts_fit(ts: Seq<Seq<ParsecLine>>) -> bool {
    &&& ts.len() <= u64::MAX
    &&& forall|i: int| 0 <= i < ts.len() ==> #[trigger] ts[i].len() <= u64::MAX
}

proof fn lemma_trajectories_words_concat(a: Seq<Seq<ParsecLine>>, b: Seq<Seq<ParsecLine>>)
    ensures
        trajectories_words(a + b) == trajectories_words(a) + trajectories_words(b),
    decreases a.len(),
{
    if a.len() == 0 {
        assert(a + b =~= b);
        assert(trajectories_words(a) + trajectories_words(b) =~= trajectories_words(b));
    } else {
        assert((a + b).skip(1) =~= a.skip(1) + b);
        lemma_trajectories_words_concat(a.skip(1), b);
        assert((a + b)[0] == a[0]);
        assert(trajectories_words(a + b) =~= trajectories_words(a) + trajectories_words(b));
    }
}

proof fn lemma_le_bytes_injective(a: Seq<u64>, b: Seq<u64>)
    requires
        le_bytes(a) == le_bytes(b),
    ensures
        a == b,
{
    lemma_auto_spec_u64_to_from_le_bytes();
    assert(le_bytes(a).len() == 8 * a.len());
    assert(le_bytes(b).len() == 8 * b.len());
    assert(a.len() == b.len());
    assert forall|i: int| 0 <= i < a.len() implies a[i] == b[i] by {
        let sa = spec_u64_to_le_bytes(a[i]);
        let sb = spec_u64_to_le_bytes(b[i]);
        assert forall|k: int| 0 <= k < 8 implies sa[k] == sb[k] by {
            assert((8 * i + k) / 8 == i && (8 * i + k) % 8 == k && 8 * i + k < 8 * a.len())
                by (nonlinear_arith)
                requires
                    0 <= k < 8,
                    0 <= i < a.len(),
            ;
            assert(le_bytes(a)[8 * i + k] == sa[k]);
            assert(le_bytes(b)[8 * i + k] == sb[k]);
        }
        assert(sa =~= sb);
    }
    assert(a =~= b);
}

/// The words of the stored form `b`, where its length is a multiple of eight.
fn words_of_bytes(b: &[u8]) -> (r: Option<Vec<u64>>)
    ensures
        r is None <==> b@.len() % 8 != 0,
        r matches Some(ws) ==> le_bytes(ws@) == b@,
{
    let blen = b.len();
    if blen % 8 != 0 {
        return None;
    }
    let n = blen / 8;
    let mut ws: Vec<u64> = Vec::new();
    let mut i: usize = 0;
    proof {
        lemma_auto_spec_u64_to_from_le_bytes();
    }
    while i < n
        invariant
            n * 8 == blen,
            blen == b@.len(),
            i <= n,
            ws@.len() == i,
            le_bytes(ws@) == b@.subrange(0, 8 * i),
        decreases n - i,
    {
        assert(8 * i + 8 <= b@.len()) by (nonlinear_arith)
            requires
                i < n,
                n * 8 == blen,
                blen == b@.len(),
        ;
        let part = slice_subrange(b, 8 * i, 8 * i + 8);
        let w = u64_from_le_bytes(part);
        let ghost before = ws@;
        ws.push(w);
        proof {
            lemma_auto_spec_u64_to_from_le_bytes();
            assert(spec_u64_to_le_bytes(w) == part@);
            assert forall|q: int| 0 <= q < 8 * (i + 1) implies #[trigger] le_bytes(ws@)[q]
                == b@.subrange(0, 8 * (i + 1))[q] by {
                if q < 8 * i {
                    assert(q / 8 < i) by (nonlinear_arith)
                        requires
                            0 <= q < 8 * i,
                    ;
                    assert(le_bytes(before)[q] == b@[q]);
                } else {
                    assert(q / 8 == i && q % 8 == q - 8 * i) by (nonlinear_arith)
                        requires
                            8 * i <= q < 8 * (i + 1),
                    ;
                }
            }
            assert(le_bytes(ws@) =~= b@.subrange(0, 8 * (i + 1)));
        }
        i = i + 1;
    }
    assert(b@.subrange(0, 8 * n as int) =~= b@);
    Some(ws)
}

fn push_word(out: &mut Vec<u8>, w: u64, ws: Ghost<Seq<u64>>)
    requires
        old(out)@ == le_bytes(ws@),
    ensures
        final(out)@ == le_bytes(ws@.push(w)),
{
    let bytes = u64_to_le_bytes(w);
    let ghost before = out@;
    let mut k: usize = 0;
    while k < 8
        invariant
            bytes@.len() == 8,
            k <= 8,
            out@ == before + bytes@.take(k as int),
        decreases 8 - k,
    {
        out.push(bytes[k]);
        k = k + 1;
        assert(out@ =~= before + bytes@.take(k as int));
    }
    proof {
        let n = ws@.len();
        let after = ws@.push(w);
        assert forall|q: int| 0 <= q < 8 * (n + 1) implies #[trigger] le_bytes(after)[q] == out@[q] by {
            if q < 8 * n {
                assert(q / 8 < n) by (nonlinear_arith)
                    requires
                        0 <= q < 8 * n,
                ;
                assert(after[q / 8] == ws@[q / 8]);
            } else {
                assert(q / 8 == n && q % 8 == q - 8 * n) by (nonlinear_arith)
                    requires
                        8 * n <= q < 8 * (n + 1),
                ;
            }
        }
        assert(le_bytes(after) =~= out@);
    }
}

/// The stored form of the table `d`.
///
/// Every table held in memory has counts that fit a word, and this says so.
pub fn encode_data(d: &ParsecData) -> (r: Vec<u8>)
    ensures
        r@ == encoding(d.metallicity_in_mass_fraction, table_view(d.data@)),
        counts_fit(table_view(d.data@)),
{
    let mut out: Vec<u8> = Vec::new();
    let ghost mut ws: Seq<u64> = seq![];
    assert(le_bytes(ws) =~= seq![]);
    let zw = to_word(d.metallicity_in_mass_fraction);
    push_word(&mut out, zw, Ghost(ws));
    proof { ws = ws.push(word_of(d.metallicity_in_mass_fraction)); }
    let n = d.data.len();
    push_word(&mut out, n as u64, Ghost(ws));
    proof { ws = ws.push(n as u64); }
    let ghost ts = table_view(d.data@);
    let mut i: usize = 0;
    while i < d.data.len()
        invariant
            i <= d.data@.len(),
            ts == table_view(d.data@),
            out@ == le_bytes(ws),
            ws == seq![word_of(d.metallicity_in_mass_fraction), d.data@.len() as u64]
                + trajectories_words(ts.take(i as int)),
            n == d.data@.len(),
            n <= u64::MAX,
            forall|k: int| 0 <= k < i ==> #[trigger] ts[k].len() <= u64::MAX,
        decreases d.data@.len() - i,
    {
        let t = &d.data[i];
        let ghost start = ws;
        let m = t.len();
        assert(m as int <= u64::MAX);
        push_word(&mut out, m as u64, Ghost(ws));
        proof { ws = ws.push(m as u64); }
        let mut j: usize = 0;
        while j < t.len()
            invariant
                j <= t@.len(),
                out@ == le_bytes(ws),
                ws == start + seq![t@.len() as u64] + samples_words(t@.take(j as int)),
            decreases t@.len() - j,
        {
            let p = t.get(j);
            let ghost s0 = samples_words(t@.take(j as int));
            let ghost s1 = samples_words(t@.take(j + 1));
            push_word(&mut out, to_word(p.mass), Ghost(ws));
            proof { ws = ws.push(word_of(p.mass)); }
            push_word(&mut out, to_word(p.age), Ghost(ws));
            proof { ws = ws.push(word_of(p.age)); }
            push_word(&mut out, to_word(p.log_luminosity), Ghost(ws));
            proof { ws = ws.push(word_of(p.log_luminosity)); }
            push_word(&mut out, to_word(p.log_temperature), Ghost(ws));
            proof { ws = ws.push(word_of(p.log_temperature)); }
            push_word(&mut out, to_word(p.log_radius), Ghost(ws));
            proof {
                ws = ws.push(word_of(p.log_radius));
                assert forall|q: int| 0 <= q < 5 * (j + 1) implies #[trigger] s1[q] == (s0
                    + seq![word_of(p.mass), word_of(p.age), word_of(p.log_luminosity),
                    word_of(p.log_temperature), word_of(p.log_radius)])[q] by {
                    if q < 5 * j {
                        assert(q / 5 < j) by (nonlinear_arith)
                            requires
                                0 <= q < 5 * j,
                        ;
                    } else {
                        assert(q / 5 == j && q % 5 == q - 5 * j) by (nonlinear_arith)
                            requires
                                5 * j <= q < 5 * (j + 1),
                        ;
                    }
                }
                assert(s1 =~= s0 + seq![word_of(p.mass), word_of(p.age), word_of(p.log_luminosity),
                    word_of(p.log_temperature), word_of(p.log_radius)]);
                assert(ws =~= start + seq![t@.len() as u64] + s1);
            }
            j = j + 1;
        }
        proof {
            assert(t@.take(t@.len() as int) =~= t@);
            assert(ts[i as int] == t@);
            assert(ts.take(i + 1) =~= ts.take(i as int) + seq![t@]);
            lemma_trajectories_words_concat(ts.take(i as int), seq![t@]);
            assert(seq![t@].skip(1) =~= Seq::<Seq<ParsecLine>>::empty());
            assert(trajectories_words(seq![t@].skip(1)) =~= Seq::<u64>::empty());
            assert(trajectories_words(seq![t@]) =~= trajectory_words(t@));
            assert(ws =~= seq![word_of(d.metallicity_in_mass_fraction), d.data@.len() as u64]
                + trajectories_words(ts.take(i + 1)));
        }
        i = i + 1;
    }
    proof {
        assert(ts.len() == d.data@.len());
        assert(ts.take(d.data@.len() as int) =~= ts);
        assert(ws =~= table_words(d.metallicity_in_mass_fraction, ts));
    }
    out
}

proof fn lemma_samples_words_injective(a: Seq<ParsecLine>, b: Seq<ParsecLine>)
    requires
        a.len() == b.len(),
        samples_words(a) == samples_words(b),
    ensures
        a == b,
{
    assert forall|i: int| 0 <= i < a.len() implies a[i] == b[i] by {
        assert forall|f: int| 0 <= f < 5 implies sample_word(a[i], f) == sample_word(b[i], f) by {
            assert((5 * i + f) / 5 == i && (5 * i + f) % 5 == f && 5 * i + f < 5 * a.len())
                by (nonlinear_arith)
                requires
                    0 <= f < 5,
                    0 <= i < a.len(),
            ;
            assert(samples_words(a).len() == 5 * a.len());
            assert(samples_words(a)[5 * i + f] == sample_word(a[i], f));
            assert(samples_words(b)[5 * i + f] == sample_word(b[i], f));
            assert(samples_words(a)[5 * i + f] == samples_words(b)[5 * i + f]);
        }
        assert(sample_word(a[i], 0) == sample_word(b[i], 0));
        assert(sample_word(a[i], 1) == sample_word(b[i], 1));
        assert(sample_word(a[i], 2) == sample_word(b[i], 2));
        assert(sample_word(a[i], 3) == sample_word(b[i], 3));
        assert(sample_word(a[i], 4) == sample_word(b[i], 4));
        lemma_twos_complement(a[i].mass, 0);
        lemma_twos_complement(b[i].mass, 0);
        lemma_twos_complement(a[i].age, 0);
        lemma_twos_complement(b[i].age, 0);
        lemma_twos_complement(a[i].log_luminosity, 0);
        lemma_twos_complement(b[i].log_luminosity, 0);
        lemma_twos_complement(a[i].log_temperature, 0);
        lemma_twos_complement(b[i].log_temperature, 0);
        lemma_twos_complement(a[i].log_radius, 0);
        lemma_twos_complement(b[i].log_radius, 0);
    }
    assert(a =~= b);
}

/// Where the words `ws` are the words of the table `(tz, tts)` and the first
/// `k` trajectories of it end before `pos`, the next trajectory starts at
/// `pos` and lies whole within `ws`.
proof fn lemma_next_trajectory(
    ws: Seq<u64>,
    pos: int,
    k: int,
    tz: i64,
    tts: Seq<Seq<ParsecLine>>,
)
    requires
        ws == table_words(tz, tts),
        counts_fit(tts),
        0 <= k < tts.len(),
        2 <= pos <= ws.len(),
        ws.subrange(2, pos) == trajectories_words(tts.take(k)),
    ensures
        pos < ws.len(),
        ws[pos] == tts[k].len(),
        pos + 1 + 5 * tts[k].len() <= ws.len(),
        ws.subrange(pos + 1, pos + 1 + 5 * tts[k].len()) == samples_words(tts[k]),
        trajectories_words(tts.take(k + 1)) == trajectories_words(tts.take(k)) + trajectory_words(
            tts[k],
        ),
{
    let head = tts.take(k);
    let tail = tts.skip(k);
    assert(tts =~= head + tail);
    lemma_trajectories_words_concat(head, tail);
    assert(tail[0] == tts[k]);
    assert(tail.skip(1) =~= tts.skip(k + 1));
    let t = tts[k];
    let tw = trajectory_words(t);
    assert(trajectories_words(tail) == tw + trajectories_words(tts.skip(k + 1)));
    let hw = trajectories_words(head);
    assert(ws == seq![word_of(tz), tts.len() as u64] + (hw + (tw + trajectories_words(
        tts.skip(k + 1),
    ))));
    assert(pos == 2 + hw.len());
    assert(ws[pos] == tw[0]);
    assert(t.len() <= u64::MAX);
    assert forall|q: int| 0 <= q < 5 * t.len() implies #[trigger] ws.subrange(
        pos + 1,
        pos + 1 + 5 * t.len(),
    )[q] == samples_words(t)[q] by {
        assert(ws[pos + 1 + q] == tw[1 + q]);
    }
    assert(ws.subrange(pos + 1, pos + 1 + 5 * t.len()) =~= samples_words(t));
    let h1 = tts.take(k + 1);
    assert(h1 =~= head + seq![t]);
    lemma_trajectories_words_concat(head, seq![t]);
    assert(seq![t].skip(1) =~= Seq::<Seq<ParsecLine>>::empty());
    assert(trajectories_words(seq![t].skip(1)) =~= Seq::<u64>::empty());
    assert(trajectories_words(seq![t]) =~= tw);
}

/// The `m` samples whose words start at `from`.
fn read_samples(ws: &Vec<u64>, from: usize, m: usize) -> (r: Vec<ParsecLine>)
    requires
        from + 5 * m <= ws@.len(),
    ensures
        r@.len() == m,
        samples_words(r@) == ws@.subrange(from as int, from + 5 * m),
{
    let mut r: Vec<ParsecLine> = Vec::new();
    let mut j: usize = 0;
    let wlen = ws.len();
    while j < m
        invariant
            wlen == ws@.len(),
            from + 5 * m <= wlen,
            j <= m,
            r@.len() == j,
            samples_words(r@) == ws@.subrange(from as int, from + 5 * j),
        decreases m - j,
    {
        assert(from + 5 * j + 5 <= wlen) by (nonlinear_arith)
            requires
                j < m,
                from + 5 * m <= wlen,
        ;
        let b = from + 5 * j;
        let p = ParsecLine {
            mass: from_word(ws[b]),
            age: from_word(ws[b + 1]),
            log_luminosity: from_word(ws[b + 2]),
            log_temperature: from_word(ws[b + 3]),
            log_radius: from_word(ws[b + 4]),
        };
        let ghost before = r@;
        r.push(p);
        proof {
            lemma_twos_complement(0, ws@[b as int]);
            lemma_twos_complement(0, ws@[b + 1]);
            lemma_twos_complement(0, ws@[b + 2]);
            lemma_twos_complement(0, ws@[b + 3]);
            lemma_twos_complement(0, ws@[b + 4]);
            assert forall|q: int| 0 <= q < 5 * (j + 1) implies #[trigger] samples_words(r@)[q]
                == ws@.subrange(from as int, from + 5 * (j + 1))[q] by {
                if q < 5 * j {
                    assert(q / 5 < j) by (nonlinear_arith)
                        requires
                            0 <= q < 5 * j,
                    ;
                    assert(samples_words(before)[q] == ws@[from + q]);
                } else {
                    assert(q / 5 == j && q % 5 == q - 5 * j) by (nonlinear_arith)
                        requires
                            5 * j <= q < 5 * (j + 1),
                    ;
                }
            }
            assert(samples_words(r@) =~= ws@.subrange(from as int, from + 5 * (j + 1)));
        }
        j = j + 1;
    }
    r
}

/// What reading the bytes `b` back gives: a table only where `b` is its
/// stored form, a `Deserialization` error otherwise, and for the stored form
/// of a table that very table.
pub open spec fn reads_back(b: Seq<u8>, r: Result<ParsecData, ParsecAccessError>) -> bool {
    &&& r matches Ok(d) ==> b == encoding(d.metallicity_in_mass_fraction, table_view(d.data@))
    &&& r matches Err(e) ==> e is Deserialization
    &&& forall|z: i64, ts: Seq<Seq<ParsecLine>>|
        counts_fit(ts) && b == #[trigger] encoding(z, ts) ==> (r matches Ok(d)
            && d.metallicity_in_mass_fraction == z && table_view(d.data@) == ts)
}

/// Reads a table back from its stored form. Every stored form of a table is
/// read back as that very table; any other input is refused.
pub fn decode_data(bytes: &[u8]) -> (r: Result<ParsecData, ParsecAccessError>)
    ensures
        reads_back(bytes@, r),
{
    let ws = match words_of_bytes(bytes) {
        None => {
            assert forall|z: i64, ts: Seq<Seq<ParsecLine>>|
                counts_fit(ts) && bytes@ == #[trigger] encoding(z, ts) implies false by {
                assert(le_bytes(table_words(z, ts)).len() == 8 * table_words(z, ts).len());
            }
            return Err(bad_form());
        },
        Some(ws) => ws,
    };
    proof {
        assert forall|z: i64, ts: Seq<Seq<ParsecLine>>|
            counts_fit(ts) && bytes@ == #[trigger] encoding(z, ts) implies ws@ == table_words(z, ts) by {
            lemma_le_bytes_injective(ws@, table_words(z, ts));
        }
    }
    if ws.len() < 2 {
        return Err(bad_form());
    }
    let z = from_word(ws[0]);
    let n = ws[1];
    let mut pos: usize = 2;
    let mut data: Vec<Trajectory> = Vec::new();
    let mut k: u64 = 0;
    assert(ws@.subrange(2, 2) =~= trajectories_words(table_view(data@)));
    while k < n
        invariant
            2 <= pos <= ws@.len(),
            data@.len() == k,
            k <= n,
            n == ws@[1],
            ws@.subrange(2, pos as int) == trajectories_words(table_view(data@)),
            forall|z: i64, ts: Seq<Seq<ParsecLine>>|
                counts_fit(ts) && bytes@ == #[trigger] encoding(z, ts) ==> ws@ == table_words(z, ts),
            forall|tz: i64, tts: Seq<Seq<ParsecLine>>|
                counts_fit(tts) && ws@ == #[trigger] table_words(tz, tts) ==> table_view(data@)
                    == tts.take(k as int),
        decreases n - k,
    {
        proof {
            assert forall|tz: i64, tts: Seq<Seq<ParsecLine>>|
                counts_fit(tts) && ws@ == #[trigger] table_words(tz, tts) implies pos < ws@.len()
                && ws@[pos as int] == tts[k as int].len() && tts[k as int].len() <= (ws@.len() - pos
                - 1) / 5 by {
                assert(ws@[1] == tts.len() as u64);
                lemma_next_trajectory(ws@, pos as int, k as int, tz, tts);
                let l = tts[k as int].len() as int;
                let rest = ws@.len() - pos - 1;
                assert(l <= rest / 5) by (nonlinear_arith)
                    requires
                        5 * l <= rest,
                        l >= 0,
                ;
            }
        }
        if pos >= ws.len() {
            return Err(bad_form());
        }
        let m = ws[pos];
        let rest = ws.len() - pos - 1;
        if m > (rest / 5) as u64 {
            return Err(bad_form());
        }
        let m = m as usize;
        let params = read_samples(&ws, pos + 1, m);
        let ghost done = table_view(data@);
        let ghost sw = samples_words(params@);
        let t = Trajectory::new(params);
        data.push(t);
        proof {
            assert(table_view(data@) =~= done.push(t@));
            assert forall|tz: i64, tts: Seq<Seq<ParsecLine>>|
                counts_fit(tts) && ws@ == #[trigger] table_words(tz, tts) implies table_view(data@)
                == tts.take(k + 1) by {
                assert(ws@[1] == tts.len() as u64);
                lemma_next_trajectory(ws@, pos as int, k as int, tz, tts);
                lemma_samples_words_injective(t@, tts[k as int]);
                assert(tts.take(k + 1) =~= tts.take(k as int).push(tts[k as int]));
            }
            assert(done.push(t@) =~= done + seq![t@]);
            lemma_trajectories_words_concat(done, seq![t@]);
            assert(seq![t@].skip(1) =~= Seq::<Seq<ParsecLine>>::empty());
            assert(trajectories_words(seq![t@].skip(1)) =~= Seq::<u64>::empty());
            assert(trajectories_words(seq![t@]) =~= trajectory_words(t@));
            assert(ws@.subrange(2, pos + 1 + 5 * m) =~= ws@.subrange(2, pos as int) + seq![
                ws@[pos as int],
            ] + ws@.subrange(pos + 1, pos + 1 + 5 * m));
        }
        pos = pos + 1 + 5 * m;
        k = k + 1;
    }
    proof {
        assert forall|tz: i64, tts: Seq<Seq<ParsecLine>>|
            counts_fit(tts) && ws@ == #[trigger] table_words(tz, tts) implies pos == ws@.len() && z
            == tz by {
            assert(ws@[1] == tts.len() as u64);
            assert(tts.take(k as int) =~= tts);
            lemma_twos_complement(tz, 0);
        }
    }
    if pos != ws.len() {
        return Err(bad_form());
    }
    let d = ParsecData { metallicity_in_mass_fraction: z, data };
    proof {
        lemma_twos_complement(0, ws@[0]);
        assert(ws@ =~= table_words(z, table_view(d.data@)));
        assert forall|tz: i64, tts: Seq<Seq<ParsecLine>>|
            counts_fit(tts) && bytes@ == #[trigger] encoding(tz, tts) implies z == tz && table_view(
            d.data@,
        ) == tts by {
            assert(ws@ == table_words(tz, tts));
            assert(ws@[1] == tts.len() as u64);
            assert(tts.take(k as int) =~= tts);
            lemma_twos_complement(tz, 0);
        }
    }
    Ok(d)
}

/// A stored table reads back with the same composition and the same
/// trajectories, sample for sample, and so passes validation exactly when
/// the table that was stored passes it. The premise on the counts is what
/// `encode_data` ensures of every table it stores.
pub proof fn lemma_persistence_round_trip(d: ParsecData, r: Result<ParsecData, ParsecAccessError>)
    requires
        counts_fit(table_view(d.data@)),
        reads_back(encoding(d.metallicity_in_mass_fraction, table_view(d.data@)), r),
    ensures
        r matches Ok(back) && back.metallicity_in_mass_fraction == d.metallicity_in_mass_fraction
            && table_view(back.data@) == table_view(d.data@) && back.valid() == d.valid(),
{
    let z = d.metallicity_in_mass_fraction;
    let ts = table_view(d.data@);
    assert(encoding(z, ts) == encoding(z, ts));
}

fn bad_form() -> (r: ParsecAccessError)
    ensures
        r is Deserialization,
{
    ParsecAccessError::Deserialization("stored table is malformed".to_string())
}

} // verus!
