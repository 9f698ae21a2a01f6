//! Rendered envelopes, remembered by their exact parameters.
//!
//! A search revisits the same values within one atom's refinement, and a render is an allocation plus
//! a full grain. Keying by exact bits is right because the search proposes bit-identical repeats, not
//! nearby ones. Across atoms the hit rate is nil, so the cache carries a budget and clears itself
//! whole when it would be exceeded. Clearing is always safe: this is a memo, not state.

use crate::arith::{drawn, Arith, Drawn, Rendered};
use crate::atom::Shape;
use crate::ieee::Single;
use crate::refine::RefineConfig;
use std::collections::HashMap;
use vstd::prelude::*;

verus! {

/// Envelope samples the cache may hold before it clears: 64 MB of single-precision numbers.
pub const ENVELOPE_CACHE_SAMPLES: usize = 16_777_216;

/// What a cache holds.
pub struct CacheState {
    pub entries: Map<u128, Option<Drawn>>,
    pub samples: int,
    pub budget: int,
    pub peak: int,
    pub clears: int,
}

/// Rendered envelopes by their shape's exact bits, within a budget of samples.
pub struct EnvelopeCache {
    /// An envelope and its fit region, or nothing for a shape that has none.
    entries: HashMap<u128, Option<Rendered>>,
    /// Envelope samples currently held, and the ceiling on them.
    samples: usize,
    budget: usize,
    /// The most samples ever held at once.
    peak_samples: usize,
    /// Times the cache has been cleared, as far as it counts. Entries leave only by a clear and are
    /// never overwritten, so an unchanged count below the last one proves an entry read earlier is
    /// still the one a lookup returns.
    clears: u64,
}

/// Samples an entry holds.
pub open spec fn cost(entry: Option<Drawn>) -> int {
    match entry {
        Some(r) => r.env.samples.len() as int,
        None => 0,
    }
}

/// Samples a set of entries holds.
pub open spec fn total(entries: Map<u128, Option<Drawn>>) -> int
    decreases entries.dom().len(),
    when entries.dom().finite()
{
    if entries.dom().len() == 0 {
        0
    } else {
        let k = entries.dom().choose();
        cost(entries[k]) + total(entries.remove(k))
    }
}

/// One entry's samples and the rest's.
proof fn lemma_total_remove(entries: Map<u128, Option<Drawn>>, k: u128)
    requires
        entries.dom().finite(),
        entries.dom().contains(k),
    ensures
        total(entries) == cost(entries[k]) + total(entries.remove(k)),
    decreases entries.dom().len(),
{
    let c = entries.dom().choose();
    if c != k {
        let rest = entries.remove(c);
        lemma_total_remove(rest, k);
        assert(entries.remove(k).dom().contains(c));
        lemma_total_remove(entries.remove(k), c);
        assert(rest.remove(k) =~= entries.remove(k).remove(c));
        assert(rest[k] == entries[k]);
        assert(entries.remove(k)[c] == entries[c]);
    }
}

/// Adding an entry adds its samples.
proof fn lemma_total_insert(entries: Map<u128, Option<Drawn>>, k: u128, e: Option<Drawn>)
    requires
        entries.dom().finite(),
        !entries.dom().contains(k),
    ensures
        total(entries.insert(k, e)) == total(entries) + cost(e),
{
    lemma_total_remove(entries.insert(k, e), k);
    assert(entries.insert(k, e).remove(k) =~= entries);
}

/// The code a shape is remembered under: its key's three parts, side by side.
pub open spec fn code(shape: Shape) -> u128 {
    let key = shape.key();
    (key.0 * 0x1_0000_0000_0000_0000 + key.1 * 0x1_0000_0000 + key.2) as u128
}

/// Two shapes share a code only if they share a key.
pub proof fn law_codes_are_keys(a: Shape, b: Shape)
    ensures
        code(a) == code(b) <==> a.key() == b.key(),
{
}

pub(crate) fn code_of(shape: &Shape) -> (r: u128)
    ensures
        r == code(*shape),
{
    let (kind, first, second) = shape.cache_key();
    kind as u128 * 0x1_0000_0000_0000_0000 + first as u128 * 0x1_0000_0000 + second as u128
}

impl CacheState {
    /// An emptied cache.
    pub open spec fn cleared(self) -> CacheState {
        CacheState {
            entries: Map::empty(),
            samples: 0,
            clears: if self.clears < u64::MAX {
                self.clears + 1
            } else {
                self.clears
            },
            ..self
        }
    }

    /// The cache after storing a render: cleared first, if it would otherwise be over its budget.
    pub open spec fn stored(self, k: u128, e: Option<Drawn>) -> CacheState {
        let base = if self.samples + cost(e) > self.budget {
            self.cleared()
        } else {
            self
        };
        let samples = base.samples + cost(e);
        CacheState {
            entries: base.entries.insert(k, e),
            samples,
            peak: if samples > base.peak {
                samples
            } else {
                base.peak
            },
            ..base
        }
    }
}

/// Whether refinement may consider `shape` at all. `product` is its `alpha * beta`.
pub open spec fn within(shape: Shape, product: Single, cfg: RefineConfig) -> bool {
    match shape {
        Shape::Fof(p) => {
            &&& cfg.alpha_min.at_most(p.alpha)
            &&& p.alpha.at_most(cfg.alpha_max)
            &&& cfg.beta_min.at_most(p.beta)
            &&& p.beta.at_most(cfg.beta_max)
            &&& product.at_most(cfg.alpha_beta_max)
        },
        Shape::Gaussian(g) => cfg.sigma_min.at_most(g.sigma) && g.sigma.at_most(cfg.sigma_max),
    }
}

pub open spec fn admissible<A: Arith>(ar: &A, cfg: RefineConfig, shape: Shape) -> bool {
    within(
        shape,
        match shape {
            Shape::Fof(p) => ar.product_of(p.alpha, p.beta),
            Shape::Gaussian(g) => g.sigma,
        },
        cfg,
    )
}

/// Whether refinement may consider `shape` at all.
pub fn in_bounds<A: Arith>(ar: &A, cfg: &RefineConfig, shape: Shape) -> (r: bool)
    requires
        ar.repeatable(),
    ensures
        r == admissible(ar, *cfg, shape),
{
    match shape {
        Shape::Fof(p) => cfg.alpha_min.le(p.alpha) && p.alpha.le(cfg.alpha_max) && cfg.beta_min.le(
            p.beta,
        ) && p.beta.le(cfg.beta_max) && ar.product(p.alpha, p.beta).le(cfg.alpha_beta_max),
        Shape::Gaussian(g) => cfg.sigma_min.le(g.sigma) && g.sigma.le(cfg.sigma_max),
    }
}

/// What the cache stores for a shape it did not hold: its render, or nothing for one that cannot be
/// rendered or is too long.
pub open spec fn entry_for<A: Arith>(ar: &A, cfg: RefineConfig, shape: Shape) -> Option<Drawn> {
    match ar.rendered(shape) {
        Some(e) => if e.env.samples.len() > cfg.max_atom_samples {
            None
        } else {
            Some(e)
        },
        None => None,
    }
}

/// What the cache stores for a shape it did not hold.
pub fn render_entry<A: Arith>(ar: &A, cfg: &RefineConfig, shape: Shape) -> (r: Option<Rendered>)
    requires
        ar.repeatable(),
    ensures
        drawn(r) == entry_for(ar, *cfg, shape),
{
    match ar.render(shape) {
        Some(e) => if e.env.support_len() > cfg.max_atom_samples {
            None
        } else {
            Some(e)
        },
        None => None,
    }
}

/// What a lookup of `shape` returns, and the cache it leaves.
pub open spec fn looked_up<A: Arith>(
    ar: &A,
    cfg: RefineConfig,
    c: CacheState,
    shape: Shape,
) -> (Option<Drawn>, CacheState) {
    if !admissible(ar, cfg, shape) {
        (None, c)
    } else if c.entries.dom().contains(code(shape)) {
        (c.entries[code(shape)], c)
    } else {
        let e = entry_for(ar, cfg, shape);
        (e, c.stored(code(shape), e))
    }
}

impl View for EnvelopeCache {
    type V = CacheState;

    closed spec fn view(&self) -> CacheState {
        CacheState {
            entries: self.entries@.map_values(|e: Option<Rendered>| drawn(e)),
            samples: self.samples as int,
            budget: self.budget as int,
            peak: self.peak_samples as int,
            clears: self.clears as int,
        }
    }
}

impl EnvelopeCache {
    /// The count of samples is the entries', and the peak is one they reached.
    pub open spec fn wf(&self) -> bool {
        &&& self@.entries.dom().finite()
        &&& self@.samples == total(self@.entries)
        &&& self@.peak >= self@.samples
        &&& 0 <= self@.clears <= u64::MAX
    }

    pub fn new() -> (r: EnvelopeCache)
        ensures
            r.wf(),
            r@ == (CacheState {
                entries: Map::empty(),
                samples: 0,
                budget: ENVELOPE_CACHE_SAMPLES as int,
                peak: 0,
                clears: 0,
            }),
    {
        EnvelopeCache::with_budget(ENVELOPE_CACHE_SAMPLES)
    }

    pub fn with_budget(budget: usize) -> (r: EnvelopeCache)
        ensures
            r.wf(),
            r@ == (CacheState {
                entries: Map::empty(),
                samples: 0,
                budget: budget as int,
                peak: 0,
                clears: 0,
            }),
    {
        broadcast use vstd::std_specs::hash::group_hash_axioms;

        let r = EnvelopeCache {
            entries: HashMap::new(),
            samples: 0,
            budget,
            peak_samples: 0,
            clears: 0,
        };
        assert(r@.entries =~= Map::empty());
        r
    }

    pub fn len(&self) -> (r: usize)
        ensures
            r == self@.entries.dom().len(),
    {
        broadcast use vstd::std_specs::hash::group_hash_axioms;

        assert(self@.entries.dom() =~= self.entries@.dom());
        self.entries.len()
    }

    pub fn is_empty(&self) -> (r: bool)
        ensures
            r == (self@.entries.dom().len() == 0),
    {
        self.len() == 0
    }

    /// Envelope samples held, and the most ever held at once.
    pub fn usage(&self) -> (r: (usize, usize))
        ensures
            r.0 == self@.samples,
            r.1 == self@.peak,
    {
        (self.samples, self.peak_samples)
    }

    /// Times the cache has been cleared, as far as it counts.
    pub fn clears(&self) -> (r: u64)
        ensures
            r == self@.clears,
    {
        self.clears
    }

    /// Drop everything. Safe at any point: the cache is a memo, not state.
    pub fn clear(&mut self)
        requires
            old(self).wf(),
        ensures
            final(self).wf(),
            final(self)@ == old(self)@.cleared(),
    {
        broadcast use vstd::std_specs::hash::group_hash_axioms;

        self.entries.clear();
        self.samples = 0;
        if self.clears < u64::MAX {
            self.clears = self.clears + 1;
        }
        proof {
            assert(self@.entries =~= Map::empty());
        }
    }

    /// Store a render of a shape the cache does not hold.
    ///
    /// The budget is enforced before the insertion, so the entry just rendered always survives it.
    pub(crate) fn insert(&mut self, k: u128, value: Option<Rendered>)
        requires
            old(self).wf(),
            !old(self)@.entries.dom().contains(k),
        ensures
            final(self).wf(),
            final(self)@ == old(self)@.stored(k, drawn(value)),
    {
        broadcast use vstd::std_specs::hash::group_hash_axioms;

        let added: usize = match &value {
            Some(e) => e.env.support_len(),
            None => 0,
        };
        if added > self.budget || self.samples > self.budget - added {
            self.clear();
        }
        let ghost base = self@;
        proof {
            lemma_total_insert(base.entries, k, drawn(value));
        }
        self.samples = self.samples + added;
        if self.samples > self.peak_samples {
            self.peak_samples = self.samples;
        }
        self.entries.insert(k, value);
        proof {
            assert(self@.entries =~= base.entries.insert(k, drawn(value)));
        }
    }

    /// Whether the cache holds an entry under a code.
    pub(crate) fn holds(&self, k: u128) -> (r: bool)
        ensures
            r == self@.entries.dom().contains(k),
    {
        broadcast use vstd::std_specs::hash::group_hash_axioms;

        self.entries.contains_key(&k)
    }

    /// The entry under a code.
    pub(crate) fn entry(&self, k: u128) -> (r: Option<&Rendered>)
        ensures
            match r {
                Some(e) => self@.entries.dom().contains(k) && self@.entries[k] == Some(e@),
                None => self@.entries.dom().contains(k) ==> self@.entries[k] is None,
            },
    {
        broadcast use vstd::std_specs::hash::group_hash_axioms;

        match self.entries.get(&k) {
            Some(e) => e.as_ref(),
            None => None,
        }
    }

    /// Render `shape`, or return `None` if it is out of bounds or unusable.
    ///
    /// Bounds are enforced here rather than in the searches, so that every path to an envelope is
    /// screened by the same rules. A FOF is remembered by `(alpha, beta)` alone: a hit serves
    /// whatever release the first request rendered.
    pub fn get<A: Arith>(&mut self, ar: &A, cfg: &RefineConfig, shape: Shape) -> (r: Option<
        &Rendered,
    >)
        requires
            ar.repeatable(),
            old(self).wf(),
        ensures
            final(self).wf(),
            final(self)@ == looked_up(ar, *cfg, old(self)@, shape).1,
            match r {
                Some(e) => looked_up(ar, *cfg, old(self)@, shape).0 == Some(e@),
                None => looked_up(ar, *cfg, old(self)@, shape).0 is None,
            },
    {
        if !in_bounds(ar, cfg, shape) {
            return None;
        }
        let k: u128 = code_of(&shape);
        if !self.holds(k) {
            let value = render_entry(ar, cfg, shape);
            self.insert(k, value);
        }
        self.entry(k)
    }
}

} // verus!
