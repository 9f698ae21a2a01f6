//! Turning a residual into a residual book.
//!
//! Band-major, one pass per band: nothing is shared between bands, so they go out to the pool as they
//! are. **The result is bit-identical at any thread count.** Each band's arithmetic is a fixed sequence
//! that no other band can interleave with, and the columns are gathered in band order.

use crate::decimate::up;
use crate::ieee::{Double, Single};
use crate::pool::spread;
use crate::residual::book::{
    ResidualBook, ResidualErbBankDescriptor, ResidualPowerDescriptor, RESIDUAL_BOOK_VERSION,
};
use crate::residual::config::{refused, runnable, ResidualAnalysisConfig};
use crate::residual::erb::centres;
use crate::residual::error::ResidualAnalysisError;
use crate::residual::filter::{at_rest, buildable, fed, heard, is_band, is_refusal, GammatoneBand};
use crate::residual::math::{BankMath, Pole};
use crate::residual::power::{detector_coeffs, tau_for};
use vstd::prelude::*;

verus! {

/// A band's detector level after the first `n` samples.
pub open spec fn level<M: BankMath>(
    m: &M,
    pole: Pole,
    gain: Double,
    order: int,
    a: Double,
    signal: Seq<Single>,
    n: int,
) -> Double
    decreases n,
{
    if n <= 0 {
        Double { bits: 0 }
    } else {
        m.detect_of(
            a,
            level(m, pole, gain, order, a, signal, n - 1),
            heard(m, pole, gain, at_rest(order), signal, n - 1),
        )
    }
}

/// Frame `k` of a band: its detector immediately after sample `k * update`.
pub open spec fn frame_level<M: BankMath>(
    m: &M,
    b: GammatoneBand,
    order: int,
    a: Double,
    signal: Seq<Single>,
    update: int,
    k: int,
) -> Single {
    m.single_of(level(m, b.pole, b.gain, order, a, signal, k * update + 1))
}

/// One band's column: the gain it was run with and its frames, for a band that can be built.
pub open spec fn is_column<M: BankMath>(
    m: &M,
    signal: Seq<Single>,
    sample_rate: Double,
    center: Double,
    order: usize,
    a: Double,
    update: int,
    r: Result<(Double, Vec<Single>), ResidualAnalysisError>,
) -> bool {
    match r {
        Ok((gain, column)) => {
            &&& buildable(m, center, sample_rate, order)
            &&& column@.len() == up(signal.len() as int, update)
            &&& exists|b: GammatoneBand| #[trigger]
                is_band(m, center, sample_rate, order, b) && gain == b.gain && forall|k: int|
                    0 <= k < column@.len() ==> #[trigger] column@[k] == frame_level(
                        m,
                        b,
                        order as int,
                        a,
                        signal,
                        update,
                        k,
                    )
        },
        Err(e) => !buildable(m, center, sample_rate, order) && is_refusal(
            m,
            center,
            sample_rate,
            order,
            e,
        ),
    }
}

/// Design a band and run the whole residual through it.
fn run_band<M: BankMath>(
    m: &M,
    residual: &[Single],
    sample_rate: Double,
    center: Double,
    order: usize,
    a: Double,
    update: usize,
) -> (r: Result<(Double, Vec<Single>), ResidualAnalysisError>)
    requires
        m.repeatable(),
        update >= 1,
    ensures
        is_column(m, residual@, sample_rate, center, order, a, update as int, r),
{
    let mut band = match GammatoneBand::design(m, center, sample_rate, order) {
        Ok(b) => b,
        Err(e) => {
            return Err(e);
        },
    };
    let ghost built = band;
    let gain = band.gain;
    let mut column: Vec<Single> = Vec::new();
    let mut p = Double { bits: 0 };
    let mut n: usize = 0;
    // Samples until the next frame is due.
    let mut wait: usize = 0;
    proof {
        lemma_frames(0, update as int);
        assert(fed(m, built.pole, built.state@, residual@, 0) == at_rest(order as int));
    }
    while n < residual.len()
        invariant
            m.repeatable(),
            update >= 1,
            n <= residual@.len(),
            wait < update,
            n + wait == column@.len() * update,
            is_band(m, center, sample_rate, order, built),
            band.pole == built.pole,
            band.gain == built.gain,
            gain == built.gain,
            built.state@ == at_rest(order as int),
            band.state@ == fed(m, built.pole, built.state@, residual@, n as int),
            p == level(m, built.pole, built.gain, order as int, a, residual@, n as int),
            column@.len() == up(n as int, update as int),
            forall|k: int|
                0 <= k < column@.len() ==> #[trigger] column@[k] == frame_level(
                    m,
                    built,
                    order as int,
                    a,
                    residual@,
                    update as int,
                    k,
                ),
        decreases residual@.len() - n,
    {
        let x = m.double(residual[n]);
        let y = band.process_sample(m, x);
        p = m.detect(a, p, y);
        proof {
            lemma_frames_step(n as int, update as int, column@.len() as int, wait as int);
        }
        if wait == 0 {
            column.push(m.single(p));
            assert((column@.len() - 1) * update + update == column@.len() * update)
                by (nonlinear_arith);
            wait = update - 1;
        } else {
            wait -= 1;
        }
        n += 1;
    }
    Ok((gain, column))
}

proof fn lemma_frames(n: int, update: int)
    requires
        update >= 1,
        n >= 0,
    ensures
        n == 0 ==> up(n, update) == 0,
{
    assert((update - 1) / update == 0) by (nonlinear_arith)
        requires
            update >= 1,
    ;
}

/// A frame is due exactly at each multiple of the update.
proof fn lemma_frames_step(n: int, update: int, frames: int, wait: int)
    requires
        update >= 1,
        n >= 0,
        0 <= wait < update,
        n + wait == frames * update,
        frames == up(n, update),
    ensures
        wait == 0 ==> up(n + 1, update) == frames + 1 && frames * update == n,
        wait > 0 ==> up(n + 1, update) == frames,
{
    let q = (n + update) / update;
    if wait == 0 {
        assert((frames * update + update) / update == frames + 1) by (nonlinear_arith)
            requires
                update >= 1,
        ;
    } else {
        vstd::arithmetic::div_mod::lemma_fundamental_div_mod_converse(
            n + update,
            update,
            frames,
            update - wait,
        );
    }
}

/// The columns of every band, in band order.
pub open spec fn are_columns<M: BankMath>(
    m: &M,
    signal: Seq<Single>,
    sample_rate: Double,
    c: ResidualAnalysisConfig,
    cols: Seq<Result<(Double, Vec<Single>), ResidualAnalysisError>>,
) -> bool {
    let f = centres(m, c.erb.bands, c.erb.min_freq_hz, c.erb.max_freq_hz);
    &&& cols.len() == c.erb.bands
    &&& forall|b: int|
        0 <= b < cols.len() ==> is_column(
            m,
            signal,
            sample_rate,
            f[b],
            c.erb.filter_order,
            m.coefficient_of(sample_rate, tau_for(m, c.power, m.bandwidth_of(f[b]))),
            c.update_samples as int,
            #[trigger] cols[b],
        )
}

/// The book the columns make.
pub open spec fn is_book<M: BankMath>(
    m: &M,
    signal: Seq<Single>,
    sample_rate: Double,
    start_sample: u64,
    c: ResidualAnalysisConfig,
    cols: Seq<Result<(Double, Vec<Single>), ResidualAnalysisError>>,
    r: ResidualBook,
) -> bool {
    let bands = c.erb.bands as int;
    let frames = up(signal.len() as int, c.update_samples as int);
    let f = centres(m, c.erb.bands, c.erb.min_freq_hz, c.erb.max_freq_hz);
    &&& r.version == RESIDUAL_BOOK_VERSION
    &&& r.sample_rate == sample_rate
    &&& r.start_sample == start_sample
    &&& r.source_samples == signal.len()
    &&& r.update_samples == c.update_samples as u32
    &&& r.band_count == c.erb.bands as u32
    &&& r.frame_count == frames
    &&& r.storage == c.storage
    &&& r.power@.len() == frames * bands
    &&& forall|k: int, b: int|
        0 <= k < frames && 0 <= b < bands ==> r.power@[#[trigger] crate::tfmap::at(k, b, bands)]
            == (cols[b]->Ok_0).1@[k]
    &&& r.bank.band_count == c.erb.bands as u32
    &&& r.bank.min_freq_hz == c.erb.min_freq_hz
    &&& r.bank.max_freq_hz == c.erb.max_freq_hz
    &&& r.bank.filter_order == c.erb.filter_order as u32
    &&& r.bank.spacing == c.erb.spacing
    &&& r.bank.filter_kind == c.erb.filter_kind
    &&& r.bank.normalization == c.erb.normalization
    &&& r.bank.center_freq_hz@ == f
    &&& r.bank.bandwidth_hz@ == Seq::new(bands as nat, |b: int| m.bandwidth_of(f[b]))
    &&& r.bank.normalization_gain@ == Seq::new(bands as nat, |b: int| (cols[b]->Ok_0).0)
    &&& r.bank.power_detector.mode == c.power.mode
    &&& r.bank.power_detector.tau_seconds@ == Seq::new(
        bands as nat,
        |b: int| tau_for(m, c.power, m.bandwidth_of(f[b])),
    )
}

/// Band-major columns as one frame-major matrix.
fn transpose(cols: &[(Double, Vec<Single>)], frames: usize) -> (r: Vec<Single>)
    requires
        frames * cols@.len() <= usize::MAX,
        forall|b: int| 0 <= b < cols@.len() ==> (#[trigger] cols@[b]).1@.len() == frames,
    ensures
        r@.len() == frames * cols@.len(),
        forall|k: int, b: int|
            0 <= k < frames && 0 <= b < cols@.len() ==> r@[#[trigger] crate::tfmap::at(
                k,
                b,
                cols@.len() as int,
            )] == cols@[b].1@[k],
{
    let bands: usize = cols.len();
    let mut out: Vec<Single> = Vec::new();
    let mut k: usize = 0;
    assert(0 * bands == 0) by (nonlinear_arith);
    while k < frames
        invariant
            k <= frames,
            bands == cols@.len(),
            forall|b: int| 0 <= b < cols@.len() ==> (#[trigger] cols@[b]).1@.len() == frames,
            out@.len() == k * bands,
            forall|i: int, b: int|
                0 <= i < k && 0 <= b < bands ==> out@[#[trigger] crate::tfmap::at(
                    i,
                    b,
                    bands as int,
                )] == cols@[b].1@[i],
        decreases frames - k,
    {
        let mut b: usize = 0;
        while b < bands
            invariant
                k < frames,
                b <= bands,
                bands == cols@.len(),
                forall|b: int| 0 <= b < cols@.len() ==> (#[trigger] cols@[b]).1@.len() == frames,
                out@.len() == k * bands + b,
                forall|i: int, c: int|
                    0 <= c < bands && (0 <= i < k || (i == k && c < b)) ==> out@[
                    #[trigger] crate::tfmap::at(i, c, bands as int)] == cols@[c].1@[i],
            decreases bands - b,
        {
            let ghost was = out@;
            let v = cols[b].1[k];
            out.push(v);
            proof {
                assert forall|i: int, c: int|
                    0 <= c < bands && (0 <= i < k || (i == k && c < b + 1)) implies out@[
                #[trigger] crate::tfmap::at(i, c, bands as int)] == cols@[c].1@[i] by {
                    if !(i == k && c == b) {
                        if i < k {
                            assert((i + 1) * bands <= k * bands) by (nonlinear_arith)
                                requires
                                    i + 1 <= k,
                            ;
                            assert((i + 1) * bands == i * bands + bands) by (nonlinear_arith);
                        }
                        assert(0 <= i * bands) by (nonlinear_arith)
                            requires
                                i >= 0,
                        ;
                        assert(out@[crate::tfmap::at(i, c, bands as int)]
                            == was[crate::tfmap::at(i, c, bands as int)]);
                    }
                }
            }
            b += 1;
        }
        assert((k + 1) * bands == k * bands + bands) by (nonlinear_arith);
        k += 1;
    }
    out
}

/// What analysing a residual comes to.
pub open spec fn residual_analysed<M: BankMath>(
    m: &M,
    residual: Seq<Single>,
    sample_rate: Double,
    start_sample: u64,
    cfg: ResidualAnalysisConfig,
    answer: Result<ResidualBook, ResidualAnalysisError>,
) -> bool {
    &&& !runnable(m, cfg, sample_rate) ==> (answer matches Err(e) && refused(m, cfg, sample_rate, e))
    &&& runnable(m, cfg, sample_rate) ==> exists|
        cols: Seq<Result<(Double, Vec<Single>), ResidualAnalysisError>>,
    |
        #[trigger] are_columns(m, residual, sample_rate, cfg, cols) && match answer {
            Ok(book) => (forall|b: int| 0 <= b < cols.len() ==> (#[trigger] cols[b]) is Ok)
                && is_book(m, residual, sample_rate, start_sample, cfg, cols, book),
            Err(e) => exists|b: int|
                0 <= b < cols.len() && #[trigger] cols[b] == Err::<
                    (Double, Vec<Single>),
                    ResidualAnalysisError,
                >(e) && forall|j: int| 0 <= j < b ==> (#[trigger] cols[j]) is Ok,
        }
}

/// Analyse one channel of residual into a fixed-rate power book.
///
/// `start_sample` is the residual's offset from the file's origin. A configuration that cannot be run
/// is refused, as is a band that cannot be built; the first such band in order is the one reported.
pub fn analyze_residual<M: BankMath + Sync>(
    m: &M,
    residual: &[Single],
    sample_rate: Double,
    start_sample: u64,
    cfg: &ResidualAnalysisConfig,
) -> (r: Result<ResidualBook, ResidualAnalysisError>)
    requires
        m.repeatable(),
        cfg.update_samples >= 1 ==> up(residual@.len() as int, cfg.update_samples as int)
            * cfg.erb.bands <= usize::MAX,
    ensures
        residual_analysed(m, residual@, sample_rate, start_sample, *cfg, r),
{
    match cfg.validate(m, sample_rate) {
        Ok(_) => {},
        Err(e) => {
            return Err(e);
        },
    }
    let bands: usize = cfg.erb.bands;
    let order: usize = cfg.erb.filter_order;
    let nu: usize = cfg.update_samples;
    let centers = match cfg.erb.center_freqs(m) {
        Ok(f) => f,
        Err(e) => {
            return Err(e);
        },
    };
    let ghost f = centres(m, cfg.erb.bands, cfg.erb.min_freq_hz, cfg.erb.max_freq_hz);
    assert(centers@ == f);
    let mut bandwidths: Vec<Double> = Vec::new();
    let mut b: usize = 0;
    while b < bands
        invariant
            m.repeatable(),
            b <= bands,
            centers@ == f,
            f.len() == bands,
            bandwidths@.len() == b,
            forall|i: int| 0 <= i < b ==> #[trigger] bandwidths@[i] == m.bandwidth_of(f[i]),
        decreases bands - b,
    {
        bandwidths.push(m.bandwidth(centers[b]));
        b += 1;
    }
    assert(bandwidths@ =~= Seq::new(bands as nat, |b: int| m.bandwidth_of(f[b])));
    let taus = cfg.power.taus(m, bandwidths.as_slice());
    assert(taus@ =~= Seq::new(
        bands as nat,
        |b: int| tau_for(m, cfg.power, m.bandwidth_of(f[b])),
    ));
    let coeffs = detector_coeffs(m, sample_rate, taus.as_slice());

    let ghost coefs = coeffs@;
    let centers_ref = &centers;
    let coeffs_ref = &coeffs;
    let job = |b: usize| -> (c: Result<(Double, Vec<Single>), ResidualAnalysisError>)
        requires
            m.repeatable(),
            nu >= 1,
            b < centers_ref@.len(),
            b < coeffs_ref@.len(),
        ensures
            is_column(
                m,
                residual@,
                sample_rate,
                centers_ref@[b as int],
                order,
                coeffs_ref@[b as int],
                nu as int,
                c,
            ),
        { run_band(m, residual, sample_rate, centers_ref[b], order, coeffs_ref[b], nu) };
    let results = spread(bands, job);
    assert(are_columns(m, residual@, sample_rate, *cfg, results@)) by {
        assert forall|b: int| 0 <= b < results@.len() implies is_column(
            m,
            residual@,
            sample_rate,
            f[b],
            cfg.erb.filter_order,
            m.coefficient_of(sample_rate, tau_for(m, cfg.power, m.bandwidth_of(f[b]))),
            cfg.update_samples as int,
            #[trigger] results@[b],
        ) by {
            assert(coefs[b] == m.coefficient_of(sample_rate, taus@[b]));
            assert(taus@[b] == tau_for(m, cfg.power, bandwidths@[b]));
        }
    }
    let ghost cols = results@;
    let frame_count: usize = if residual.len() == 0 {
        0
    } else {
        (residual.len() - 1) / nu + 1
    };
    proof {
        lemma_frame_count(residual@.len() as int, nu as int);
    }
    let mut columns: Vec<(Double, Vec<Single>)> = Vec::new();
    let mut gains: Vec<Double> = Vec::new();
    let mut rest = results;
    // Taken from the back, so nothing is moved twice; the columns come out reversed and are put back
    // in band order below.
    let mut failed: Option<ResidualAnalysisError> = None;
    let ghost mut at: int = bands as int;
    while rest.len() > 0
        invariant
            rest@ == cols.take(rest@.len() as int),
            rest@.len() <= cols.len(),
            failed is None ==> forall|j: int|
                rest@.len() <= j < cols.len() ==> (#[trigger] cols[j]) is Ok,
            failed matches Some(e) ==> rest@.len() <= at < cols.len() && cols[at] == Err::<
                (Double, Vec<Single>),
                ResidualAnalysisError,
            >(e) && forall|j: int| rest@.len() <= j < at ==> (#[trigger] cols[j]) is Ok,
            failed is None ==> columns@.len() == cols.len() - rest@.len(),
            failed is None ==> forall|i: int|
                0 <= i < columns@.len() ==> #[trigger] columns@[i] == cols[cols.len() - 1 - i]->Ok_0,
        decreases rest@.len(),
    {
        let ghost before = rest@;
        match rest.pop() {
            Some(Ok(c)) => {
                assert(cols[rest@.len() as int] == Ok::<
                    (Double, Vec<Single>),
                    ResidualAnalysisError,
                >(c));
                columns.push(c);
            },
            Some(Err(e)) => {
                assert(cols[rest@.len() as int] == Err::<
                    (Double, Vec<Single>),
                    ResidualAnalysisError,
                >(e));
                failed = Some(e);
                proof {
                    at = rest@.len() as int;
                }
            },
            None => {},
        }
        assert(rest@ =~= cols.take(rest@.len() as int));
    }
    match failed {
        Some(e) => {
            return Err(e);
        },
        None => {},
    }
    let ghost reversed = columns@;
    let mut ordered: Vec<(Double, Vec<Single>)> = Vec::new();
    while columns.len() > 0
        invariant
            ordered@.len() + columns@.len() == reversed.len(),
            columns@ == reversed.take(columns@.len() as int),
            forall|i: int|
                0 <= i < ordered@.len() ==> #[trigger] ordered@[i] == reversed[reversed.len() - 1
                    - i],
        decreases columns@.len(),
    {
        match columns.pop() {
            Some(c) => {
                ordered.push(c);
            },
            None => {},
        }
        assert(columns@ =~= reversed.take(columns@.len() as int));
    }
    proof {
        assert forall|b: int| 0 <= b < ordered@.len() implies #[trigger] ordered@[b]
            == cols[b]->Ok_0 by {
            assert(ordered@[b] == reversed[reversed.len() - 1 - b]);
        }
        assert forall|b: int| 0 <= b < ordered@.len() implies (#[trigger] ordered@[b]).1@.len()
            == frame_count by {
            assert(cols[b] is Ok);
        }
    }
    let power = transpose(ordered.as_slice(), frame_count);
    let mut b: usize = 0;
    while b < bands
        invariant
            b <= bands,
            bands == ordered@.len(),
            gains@.len() == b,
            forall|i: int| 0 <= i < b ==> #[trigger] gains@[i] == ordered@[i].0,
        decreases bands - b,
    {
        gains.push(ordered[b].0);
        b += 1;
    }
    assert(gains@ =~= Seq::new(bands as nat, |b: int| (cols[b]->Ok_0).0));
    let book = ResidualBook {
        version: RESIDUAL_BOOK_VERSION,
        sample_rate,
        start_sample,
        source_samples: residual.len() as u64,
        update_samples: nu as u32,
        band_count: bands as u32,
        frame_count: frame_count as u64,
        storage: cfg.storage,
        power,
        bank: ResidualErbBankDescriptor {
            band_count: bands as u32,
            min_freq_hz: cfg.erb.min_freq_hz,
            max_freq_hz: cfg.erb.max_freq_hz,
            filter_order: order as u32,
            spacing: cfg.erb.spacing,
            filter_kind: cfg.erb.filter_kind,
            normalization: cfg.erb.normalization,
            center_freq_hz: centers,
            bandwidth_hz: bandwidths,
            normalization_gain: gains,
            power_detector: ResidualPowerDescriptor { mode: cfg.power.mode, tau_seconds: taus },
        },
    };
    assert(is_book(m, residual@, sample_rate, start_sample, *cfg, cols, book));
    Ok(book)
}

proof fn lemma_frame_count(n: int, update: int)
    requires
        n >= 0,
        update >= 1,
    ensures
        n == 0 ==> up(n, update) == 0,
        n > 0 ==> up(n, update) == (n - 1) / update + 1 && (n - 1) / update + 1 <= n,
{
    if n == 0 {
        lemma_frames(0, update);
    } else {
        assert((n + update - 1) / update == (n - 1) / update + 1) by (nonlinear_arith)
            requires
                update >= 1,
                n >= 1,
        ;
        assert((n - 1) / update <= n - 1) by (nonlinear_arith)
            requires
                update >= 1,
                n >= 1,
        ;
    }
}

/// A book an analysis makes raises no objection, wherever its band count can be written down.
pub proof fn law_an_analysis_makes_a_sound_book<M: BankMath>(
    m: &M,
    signal: Seq<Single>,
    sample_rate: Double,
    start_sample: u64,
    c: ResidualAnalysisConfig,
    cols: Seq<Result<(Double, Vec<Single>), ResidualAnalysisError>>,
    r: ResidualBook,
)
    requires
        c.erb.bands <= u32::MAX,
        is_book(m, signal, sample_rate, start_sample, c, cols, r),
    ensures
        crate::residual::book::objection(r) is None,
{
    assert(c.erb.bands as u32 == c.erb.bands);
}

proof fn lemma_fed_head<M: BankMath>(m: &M, pole: Pole, order: int, signal: Seq<Single>, len: int, n: int)
    requires
        n <= len <= signal.len(),
    ensures
        fed(m, pole, at_rest(order), signal.take(len), n) == fed(m, pole, at_rest(order), signal, n),
    decreases n,
{
    if n > 0 {
        lemma_fed_head(m, pole, order, signal, len, n - 1);
        assert(signal.take(len)[n - 1] == signal[n - 1]);
    }
}

proof fn lemma_level_head<M: BankMath>(
    m: &M,
    pole: Pole,
    gain: Double,
    order: int,
    a: Double,
    signal: Seq<Single>,
    len: int,
    n: int,
)
    requires
        n <= len <= signal.len(),
    ensures
        level(m, pole, gain, order, a, signal.take(len), n) == level(
            m,
            pole,
            gain,
            order,
            a,
            signal,
            n,
        ),
    decreases n,
{
    if n > 0 {
        lemma_level_head(m, pole, gain, order, a, signal, len, n - 1);
        lemma_fed_head(m, pole, order, signal, len, n - 1);
        assert(signal.take(len)[n - 1] == signal[n - 1]);
    }
}

/// Every frame of the shorter signal is a frame of the longer one, and reads a sample of the shorter.
proof fn lemma_head_frames(len: int, n: int, update: int, k: int)
    requires
        0 <= len <= n,
        update >= 1,
        0 <= k < up(len, update),
    ensures
        k < up(n, update),
        k * update < len,
{
    lemma_frame_count(len, update);
    lemma_frame_count(n, update);
    assert(k * update <= len - 1) by (nonlinear_arith)
        requires
            update >= 1,
            len >= 1,
            k <= (len - 1) / update,
    ;
    assert((len - 1) / update <= (n - 1) / update) by (nonlinear_arith)
        requires
            update >= 1,
            len <= n,
    ;
}

/// One cell of the two matrices.
spec fn cell_kept(full: ResidualBook, part: ResidualBook, bands: int, k: int, b: int) -> bool {
    part.power@[crate::tfmap::at(k, b, bands)] == full.power@[crate::tfmap::at(k, b, bands)]
}

/// A shorter residual gives the same leading frames: a frame is a detector right after its own sample,
/// so nothing later reaches it. Both books are sound, and their frames lie `update_samples` apart from
/// the start.
pub proof fn law_a_shorter_residual_keeps_its_frames<M: BankMath>(
    m: &M,
    residual: Seq<Single>,
    len: int,
    sample_rate: Double,
    start_sample: u64,
    cfg: ResidualAnalysisConfig,
    full: ResidualBook,
    part: ResidualBook,
)
    requires
        0 <= len <= residual.len(),
        cfg.update_samples <= u32::MAX,
        cfg.erb.bands <= u32::MAX,
        runnable(m, cfg, sample_rate),
        residual_analysed(m, residual, sample_rate, start_sample, cfg, Ok(full)),
        residual_analysed(m, residual.take(len), sample_rate, start_sample, cfg, Ok(part)),
    ensures
        part.frame_count == up(len, cfg.update_samples as int),
        part.power@.len() == part.frame_count * cfg.erb.bands,
        part.power@.len() <= full.power@.len(),
        part.power@ == full.power@.take(part.power@.len() as int),
        forall|k: int|
            0 <= k < part.frame_count ==> part.start_sample + #[trigger] (k * part.update_samples)
                == start_sample + k * cfg.update_samples,
        crate::residual::book::objection(part) is None,
        crate::residual::book::objection(full) is None,
{
    let head = residual.take(len);
    let (bands, nu) = (cfg.erb.bands as int, cfg.update_samples as int);
    let f = centres(m, cfg.erb.bands, cfg.erb.min_freq_hz, cfg.erb.max_freq_hz);
    let cols = choose|cols: Seq<Result<(Double, Vec<Single>), ResidualAnalysisError>>| #[trigger]
        are_columns(m, residual, sample_rate, cfg, cols) && (forall|b: int|
            0 <= b < cols.len() ==> (#[trigger] cols[b]) is Ok) && is_book(
            m,
            residual,
            sample_rate,
            start_sample,
            cfg,
            cols,
            full,
        );
    let kept = choose|cols: Seq<Result<(Double, Vec<Single>), ResidualAnalysisError>>| #[trigger]
        are_columns(m, head, sample_rate, cfg, cols) && (forall|b: int|
            0 <= b < cols.len() ==> (#[trigger] cols[b]) is Ok) && is_book(
            m,
            head,
            sample_rate,
            start_sample,
            cfg,
            cols,
            part,
        );
    law_an_analysis_makes_a_sound_book(m, residual, sample_rate, start_sample, cfg, cols, full);
    law_an_analysis_makes_a_sound_book(m, head, sample_rate, start_sample, cfg, kept, part);
    assert(nu as u32 == nu && bands as u32 == bands);
    let (few, many) = (up(len, nu), up(residual.len() as int, nu));
    if few > 0 {
        lemma_head_frames(len, residual.len() as int, nu, few - 1);
    } else {
        lemma_frame_count(residual.len() as int, nu);
    }
    assert(few * bands <= many * bands) by (nonlinear_arith)
        requires
            few <= many,
            bands >= 0,
    ;
    assert forall|k: int, b: int| 0 <= k < few && 0 <= b < bands implies #[trigger] cell_kept(
        full,
        part,
        bands,
        k,
        b,
    ) by {
        lemma_head_frames(len, residual.len() as int, nu, k);
        let center = f[b];
        let order = cfg.erb.filter_order;
        let a = m.coefficient_of(sample_rate, tau_for(m, cfg.power, m.bandwidth_of(center)));
        assert(is_column(m, residual, sample_rate, center, order, a, nu, cols[b]));
        assert(is_column(m, head, sample_rate, center, order, a, nu, kept[b]));
        let x = choose|x: GammatoneBand| #[trigger]
            is_band(m, center, sample_rate, order, x) && (cols[b]->Ok_0).0 == x.gain && forall|k: int|
                0 <= k < (cols[b]->Ok_0).1@.len() ==> #[trigger] (cols[b]->Ok_0).1@[k] == frame_level(
                    m,
                    x,
                    order as int,
                    a,
                    residual,
                    nu,
                    k,
                );
        lemma_level_head(m, x.pole, x.gain, order as int, a, residual, len, k * nu + 1);
        assert((kept[b]->Ok_0).1@[k] == (cols[b]->Ok_0).1@[k]);
        let at = crate::tfmap::at(k, b, bands);
        assert(part.power@[at] == (kept[b]->Ok_0).1@[k]);
        assert(full.power@[at] == (cols[b]->Ok_0).1@[k]);
    }
    assert forall|i: int| 0 <= i < part.power@.len() implies #[trigger] part.power@[i]
        == full.power@[i] by {
        if bands == 0 {
            assert(few * bands == 0) by (nonlinear_arith)
                requires
                    bands == 0,
            ;
        }
        let (k, b) = (i / bands, i % bands);
        vstd::arithmetic::div_mod::lemma_fundamental_div_mod(i, bands);
        assert(bands * k == k * bands) by (nonlinear_arith);
        assert(k < few) by (nonlinear_arith)
            requires
                i < few * bands,
                bands > 0,
                k == i / bands,
        ;
        assert(k >= 0) by (nonlinear_arith)
            requires
                i >= 0,
                bands > 0,
                k == i / bands,
        ;
        assert(cell_kept(full, part, bands, k, b));
        assert(crate::tfmap::at(k, b, bands) == i);
    }
    assert(part.power@ =~= full.power@.take(part.power@.len() as int));
}

} // verus!
