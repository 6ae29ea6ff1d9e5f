//! Plane driver: walks every plane, row and column of the output grid; for
//! each coordinate gathers the corresponding sample from every source,
//! aggregates, re-encodes, and writes.  Each output sample is a pure
//! function of its own input column, so any schedule — sequential, striped,
//! or a parallel fan-out over disjoint coordinates — yields bit-identical
//! output; the scattered driver and the equivalence law below pin that down.

use vstd::prelude::*;
use vstd::arithmetic::power2::pow2;
use crate::CoreError;
use crate::codec::SampleKind;
use crate::codec::spec_to_canonical;
use crate::codec::spec_from_canonical;
use crate::codec::to_canonical;
use crate::codec::from_canonical;
use crate::aggregate::AggregationMode;
use crate::aggregate::CategoryLabel;
use crate::aggregate::CANONICAL_LIMIT;
use crate::aggregate::agg_spec;
use crate::aggregate::degenerate_spec;
use crate::aggregate::mode_valid;
use crate::aggregate::aggregate;
use crate::aggregate::validate_mode;
use crate::aggregate::lemma_agg_spec_bounded;

verus! {

/// One rectangular grid of raw samples, stored row-major.
#[derive(Debug)]
pub struct Plane {
    pub width: usize,
    pub height: usize,
    pub data: Vec<u64>,
}

impl Plane {
    /// Well-formed for a sample kind: the buffer covers the grid exactly and
    /// every raw sample is representable at the kind's depth.
    pub open spec fn wf(self, kind: SampleKind) -> bool {
        &&& self.data@.len() == self.width * self.height
        &&& forall|i: int| 0 <= i < self.data@.len() ==> self.data@[i] < pow2(kind.spec_depth())
    }
}

/// One image: a stack of planes whose samples share one kind.
#[derive(Debug)]
pub struct Frame {
    pub kind: SampleKind,
    pub planes: Vec<Plane>,
}

impl Frame {
    /// Every plane is well-formed at the frame's kind.
    pub open spec fn wf(self) -> bool {
        forall|p: int| 0 <= p < self.planes@.len() ==> self.planes@[p].wf(self.kind)
    }

    /// Same plane layout as another frame: as many planes, of the same
    /// dimensions plane for plane.
    pub open spec fn same_shape(self, other: Frame) -> bool {
        &&& self.planes@.len() == other.planes@.len()
        &&& forall|p: int|
            0 <= p < self.planes@.len() ==> self.planes@[p].width == other.planes@[p].width
                && self.planes@[p].height == other.planes@[p].height
    }

    /// Whether the frame holds any sample at all.
    pub open spec fn has_samples(self) -> bool {
        exists|p: int| 0 <= p < self.planes@.len() && self.planes@[p].data@.len() > 0
    }
}

/// A usable source set: at least one source, one label per source, and every
/// source well-formed, of the first source's kind and shape.
pub open spec fn sources_wf(sources: Seq<Frame>, labels: Seq<CategoryLabel>) -> bool {
    &&& sources.len() >= 1
    &&& labels.len() == sources.len()
    &&& forall|j: int| 0 <= j < sources.len() ==> (#[trigger] sources[j]).wf()
    &&& forall|j: int| 0 <= j < sources.len() ==> (#[trigger] sources[j]).kind == sources[0].kind
    &&& forall|j: int| 0 <= j < sources.len() ==> (#[trigger] sources[j]).same_shape(sources[0])
}

/// Both the source and the output kind are covered by the verified integer
/// pipeline; the float kinds are aggregated by the host shell instead.
pub open spec fn kinds_supported(src: SampleKind, out: SampleKind) -> bool {
    src.is_integer() && out.is_integer()
}

/// The canonical domain width: the widest bit depth in use, so that neither
/// side loses information.
pub open spec fn spec_domain_bits(src: SampleKind, out: SampleKind) -> nat {
    if src.spec_depth() >= out.spec_depth() {
        src.spec_depth()
    } else {
        out.spec_depth()
    }
}

/// One pixel's worth of source values, decoded into the canonical domain:
/// sample `i` of plane `p` of every source in order.
pub open spec fn gathered(sources: Seq<Frame>, domain: nat, p: int, i: int) -> Seq<u64> {
    Seq::new(
        sources.len(),
        |j: int|
            spec_to_canonical(
                sources[0].kind,
                domain,
                sources[j].planes@[p].data@[i] as int,
            ) as u64,
    )
}

/// What the output holds at plane `p`, sample `i`: the mode's aggregate of
/// that coordinate's decoded column, re-encoded at the output kind.
pub open spec fn pixel_spec(
    mode: AggregationMode,
    sources: Seq<Frame>,
    labels: Seq<CategoryLabel>,
    out_kind: SampleKind,
    p: int,
    i: int,
) -> int {
    let domain = spec_domain_bits(sources[0].kind, out_kind);
    spec_from_canonical(out_kind, domain, agg_spec(mode, gathered(sources, domain, p, i), labels))
}

/// A frame that is exactly the aggregate of `sources` under `mode`: output
/// kind and layout as requested, every sample as [`pixel_spec`] demands.
pub open spec fn output_matches(
    out: Frame,
    mode: AggregationMode,
    sources: Seq<Frame>,
    labels: Seq<CategoryLabel>,
    out_kind: SampleKind,
) -> bool {
    &&& out.kind == out_kind
    &&& out.wf()
    &&& out.same_shape(sources[0])
    &&& forall|p: int, i: int|
        0 <= p < out.planes@.len() && 0 <= i < out.planes@[p].data@.len()
            ==> #[trigger] out.planes@[p].data@[i] as int == pixel_spec(
            mode,
            sources,
            labels,
            out_kind,
            p,
            i,
        )
}

/// Computes one output sample: decodes sample `i` of plane `p` from every
/// source into `scratch`, aggregates, and re-encodes.  The only per-pixel
/// failure is the degenerate all-zero-weight case, reported before anything
/// is written.  `scratch` is caller-owned purely so one allocation serves a
/// whole scan; its contents on return are meaningless.
pub fn compute_pixel(
    mode: &AggregationMode,
    sources: &Vec<Frame>,
    labels: &Vec<CategoryLabel>,
    out_kind: SampleKind,
    p: usize,
    i: usize,
    scratch: &mut Vec<u64>,
) -> (r: Result<u64, CoreError>)
    requires
        sources_wf(sources@, labels@),
        mode_valid(*mode, sources@.len() as int),
        kinds_supported(sources@[0].kind, out_kind),
        p < sources@[0].planes@.len(),
        i < sources@[0].planes@[p as int].data@.len(),
    ensures
        degenerate_spec(*mode, labels@) ==> r == Err::<u64, CoreError>(
            CoreError::DegenerateAggregate,
        ),
        !degenerate_spec(*mode, labels@) ==> (r matches Ok(m) && m as int == pixel_spec(
            *mode,
            sources@,
            labels@,
            out_kind,
            p as int,
            i as int,
        ) && m < pow2(out_kind.spec_depth())),
{
    let src_kind = sources[0].kind;
    let sd = src_kind.depth();
    let od = out_kind.depth();
    let domain: u32 = if sd >= od {
        sd
    } else {
        od
    };
    let ghost dom = spec_domain_bits(sources@[0].kind, out_kind);
    assert(domain == dom);
    assert(dom <= 32);
    let n = sources.len();
    scratch.clear();
    let mut j: usize = 0;
    while j < n
        invariant
            j <= n,
            n == sources@.len(),
            sources_wf(sources@, labels@),
            kinds_supported(sources@[0].kind, out_kind),
            p < sources@[0].planes@.len(),
            i < sources@[0].planes@[p as int].data@.len(),
            src_kind == sources@[0].kind,
            domain == dom,
            dom == spec_domain_bits(sources@[0].kind, out_kind),
            src_kind.spec_depth() <= dom <= 32,
            scratch@.len() == j,
            forall|t: int| 0 <= t < j ==> scratch@[t] == gathered(sources@, dom, p as int, i as int)[t],
            forall|t: int| 0 <= t < j ==> scratch@[t] < pow2(dom),
        decreases n - j,
    {
        assert(sources@[j as int].wf());
        assert(sources@[j as int].same_shape(sources@[0]));
        assert(sources@[j as int].planes@[p as int].wf(src_kind));
        assert(sources@[j as int].planes@[p as int].data@.len() == sources@[0].planes@[
            p as int].data@.len());
        let raw = sources[j].planes[p].data[i];
        let c = to_canonical(src_kind, domain, raw);
        scratch.push(c);
        j = j + 1;
    }
    proof {
        assert(scratch@ =~= gathered(sources@, dom, p as int, i as int));
        assert(pow2(dom) <= CANONICAL_LIMIT) by {
            if dom < 32 {
                vstd::arithmetic::power2::lemma_pow2_strictly_increases(dom, 32);
            }
            vstd::arithmetic::power2::lemma2_to64();
        }
        vstd::arithmetic::power2::lemma_pow2_pos(dom);
        if !degenerate_spec(*mode, labels@) {
            lemma_agg_spec_bounded(*mode, scratch@, labels@, pow2(dom) as int);
        }
    }
    let m = match aggregate(mode, scratch, labels) {
        Ok(m) => m,
        Err(e) => {
            return Err(e);
        },
    };
    let o = from_canonical(out_kind, domain, m);
    Ok(o)
}

/// Aggregates a source set into one output frame, plane by plane, row-major
/// within each plane.  Validation failures are reported before any sample is
/// computed; the degenerate weighted case aborts the scan at the first pixel
/// and no partial frame escapes.  The per-pixel scratch buffer is allocated
/// once and reused across the whole scan.
#[verifier::loop_isolation(false)]
pub fn run(
    mode: &AggregationMode,
    sources: &Vec<Frame>,
    labels: &Vec<CategoryLabel>,
    out_kind: SampleKind,
) -> (r: Result<Frame, CoreError>)
    requires
        sources_wf(sources@, labels@),
    ensures
        !mode_valid(*mode, sources@.len() as int) ==> r == Err::<Frame, CoreError>(
            CoreError::InvalidModeParameters,
        ),
        mode_valid(*mode, sources@.len() as int) && !kinds_supported(sources@[0].kind, out_kind)
            ==> r == Err::<Frame, CoreError>(CoreError::UnsupportedSampleKind),
        mode_valid(*mode, sources@.len() as int) && kinds_supported(sources@[0].kind, out_kind)
            && degenerate_spec(*mode, labels@) && sources@[0].has_samples() ==> r == Err::<
            Frame,
            CoreError,
        >(CoreError::DegenerateAggregate),
        mode_valid(*mode, sources@.len() as int) && kinds_supported(sources@[0].kind, out_kind) && !(
        degenerate_spec(*mode, labels@) && sources@[0].has_samples()) ==> (r matches Ok(out)
            && output_matches(out, *mode, sources@, labels@, out_kind)),
{
    if let Err(e) = validate_mode(mode, sources.len()) {
        return Err(e);
    }
    let src_kind = sources[0].kind;
    if !src_kind.kind_is_integer() || !out_kind.kind_is_integer() {
        return Err(CoreError::UnsupportedSampleKind);
    }
    let nplanes = sources[0].planes.len();
    let mut planes_out: Vec<Plane> = Vec::new();
    let mut scratch: Vec<u64> = Vec::new();
    let mut p: usize = 0;
    while p < nplanes
        invariant
            p <= nplanes,
            planes_out@.len() == p,
            forall|q: int|
                0 <= q < p ==> (#[trigger] planes_out@[q]).width == sources@[0].planes@[q].width
                    && planes_out@[q].height == sources@[0].planes@[q].height,
            forall|q: int| 0 <= q < p ==> (#[trigger] planes_out@[q]).wf(out_kind),
            forall|q: int, t: int|
                0 <= q < p && 0 <= t < planes_out@[q].data@.len() ==> (#[trigger] planes_out@[
                q].data@[t]) as int == pixel_spec(*mode, sources@, labels@, out_kind, q, t),
            degenerate_spec(*mode, labels@) ==> forall|q: int|
                0 <= q < p ==> (#[trigger] sources@[0].planes@[q]).data@.len() == 0,
        decreases nplanes - p,
    {
        assert(sources@[0].planes@[p as int].wf(src_kind));
        let w = sources[0].planes[p].width;
        let h = sources[0].planes[p].height;
        let total = sources[0].planes[p].data.len();
        let mut data: Vec<u64> = Vec::new();
        let mut i: usize = 0;
        while i < total
            invariant
                i <= total,
                data@.len() == i,
                p < nplanes,
                forall|t: int|
                    0 <= t < i ==> (#[trigger] data@[t]) as int == pixel_spec(
                        *mode,
                        sources@,
                        labels@,
                        out_kind,
                        p as int,
                        t,
                    ),
                forall|t: int| 0 <= t < i ==> data@[t] < pow2(out_kind.spec_depth()),
                degenerate_spec(*mode, labels@) ==> i == 0,
            decreases total - i,
        {
            let m = match compute_pixel(mode, sources, labels, out_kind, p, i, &mut scratch) {
                Ok(m) => m,
                Err(e) => {
                    proof {
                        assert(sources@[0].planes@[p as int].data@.len() > 0);
                        assert(sources@[0].has_samples());
                    }
                    return Err(e);
                },
            };
            data.push(m);
            i = i + 1;
        }
        planes_out.push(Plane { width: w, height: h, data });
        p = p + 1;
    }
    let out = Frame { kind: out_kind, planes: planes_out };
    proof {
        if degenerate_spec(*mode, labels@) {
            assert(!sources@[0].has_samples());
        }
        assert(out.wf());
        assert(out.same_shape(sources@[0]));
    }
    Ok(out)
}

/// Checks one plane against a kind: buffer covers the grid, samples fit the
/// depth.
pub fn plane_wf_check(plane: &Plane, kind: SampleKind) -> (r: bool)
    ensures
        r == plane.wf(kind),
{
    proof {
        vstd::arithmetic::mul::lemma_mul_upper_bound(
            plane.width as int,
            0xFFFF_FFFF_FFFF_FFFF,
            plane.height as int,
            0xFFFF_FFFF_FFFF_FFFF,
        );
    }
    if (plane.data.len() as u128) != (plane.width as u128) * (plane.height as u128) {
        return false;
    }
    let limit = crate::codec::pow2_u64(kind.depth());
    let n = plane.data.len();
    let mut i: usize = 0;
    while i < n
        invariant
            i <= n,
            n == plane.data@.len(),
            limit == pow2(kind.spec_depth()),
            forall|t: int| 0 <= t < i ==> plane.data@[t] < pow2(kind.spec_depth()),
        decreases n - i,
    {
        if plane.data[i] >= limit {
            return false;
        }
        i = i + 1;
    }
    true
}

/// Checks a whole source set before any pixel is touched, as the host's
/// hand-off promises: non-empty, one label per source, every source
/// well-formed and of the first source's kind and shape.
pub fn check_sources(sources: &Vec<Frame>, labels: &Vec<CategoryLabel>) -> (r: bool)
    ensures
        r == sources_wf(sources@, labels@),
{
    let n = sources.len();
    if n == 0 || labels.len() != n {
        return false;
    }
    let nplanes = sources[0].planes.len();
    let mut j: usize = 0;
    while j < n
        invariant
            j <= n,
            n == sources@.len(),
            n >= 1,
            labels@.len() == n,
            nplanes == sources@[0].planes@.len(),
            forall|t: int| 0 <= t < j ==> (#[trigger] sources@[t]).wf(),
            forall|t: int| 0 <= t < j ==> (#[trigger] sources@[t]).kind == sources@[0].kind,
            forall|t: int| 0 <= t < j ==> (#[trigger] sources@[t]).same_shape(sources@[0]),
        decreases n - j,
    {
        if !(sources[j].kind == sources[0].kind) {
            return false;
        }
        if sources[j].planes.len() != nplanes {
            return false;
        }
        let mut p: usize = 0;
        while p < nplanes
            invariant
                p <= nplanes,
                j < n,
                n == sources@.len(),
                nplanes == sources@[0].planes@.len(),
                nplanes == sources@[j as int].planes@.len(),
                sources@[j as int].kind == sources@[0].kind,
                forall|q: int|
                    0 <= q < p ==> (#[trigger] sources@[j as int].planes@[q]).wf(
                        sources@[j as int].kind,
                    ),
                forall|q: int|
                    0 <= q < p ==> (#[trigger] sources@[j as int].planes@[q]).width
                        == sources@[0].planes@[q].width
                        && sources@[j as int].planes@[q].height == sources@[0].planes@[q].height,
            decreases nplanes - p,
        {
            if sources[j].planes[p].width != sources[0].planes[p].width {
                return false;
            }
            if sources[j].planes[p].height != sources[0].planes[p].height {
                return false;
            }
            if !plane_wf_check(&sources[j].planes[p], sources[j].kind) {
                return false;
            }
            p = p + 1;
        }
        j = j + 1;
    }
    true
}

/// Gathers the frames the host supplied, one per source, draining the
/// hand-off buffer.  A single missing frame fails the whole hand-off,
/// propagated verbatim with no retry.
#[verifier::loop_isolation(false)]
pub fn collect_sources(supplied: &mut Vec<Option<Frame>>) -> (r: Result<Vec<Frame>, CoreError>)
    ensures
        r matches Ok(v) ==> (v@.len() == old(supplied)@.len() && forall|j: int|
            0 <= j < old(supplied)@.len() ==> old(supplied)@[j] == Some(v@[j])),
        r is Err ==> (r == Err::<Vec<Frame>, CoreError>(CoreError::SourceUnavailable) && exists|
            j: int,
        | 0 <= j < old(supplied)@.len() && old(supplied)@[j] is None),
{
    let ghost orig = old(supplied)@;
    let mut out: Vec<Frame> = Vec::new();
    while supplied.len() > 0
        invariant
            out@.len() + supplied@.len() == orig.len(),
            supplied@ == orig.skip(out@.len() as int),
            forall|j: int| 0 <= j < out@.len() ==> orig[j] == Some(out@[j]),
        decreases supplied@.len(),
    {
        let ghost k = out@.len() as int;
        let item = supplied.remove(0);
        proof {
            assert(item == orig[k]);
            assert(supplied@ =~= orig.skip(k + 1));
        }
        let ghost prev = out@;
        match item {
            Some(f) => {
                out.push(f);
                proof {
                    assert forall|j: int| 0 <= j < out@.len() implies orig[j] == Some(out@[j]) by {
                        if j < k {
                            assert(orig[j] == Some(prev[j]));
                            assert(out@[j] == prev[j]);
                        } else {
                            assert(out@[k] == f);
                        }
                    }
                }
            },
            None => {
                proof {
                    assert(orig[k] is None);
                    assert(0 <= k < orig.len());
                    assert(exists|j: int| 0 <= j < orig.len() && orig[j] is None);
                }
                return Err(CoreError::SourceUnavailable);
            },
        }
    }
    Ok(out)
}

/// Two frames that agree kind for kind, plane for plane and sample for
/// sample: bit-identical output.
pub open spec fn same_samples(a: Frame, b: Frame) -> bool {
    &&& a.kind == b.kind
    &&& a.same_shape(b)
    &&& forall|p: int, i: int|
        0 <= p < a.planes@.len() && 0 <= i < a.planes@[p].data@.len()
            ==> #[trigger] a.planes@[p].data@[i] == #[trigger] b.planes@[p].data@[i]
}

/// Aggregates a source set exactly as [`run`] does, but walks each plane's
/// samples back to front — the kind of schedule a parallel fan-out over
/// disjoint coordinates produces.  Its contract is [`run`]'s, so the two
/// drivers are interchangeable sample for sample.
#[verifier::loop_isolation(false)]
pub fn run_scattered(
    mode: &AggregationMode,
    sources: &Vec<Frame>,
    labels: &Vec<CategoryLabel>,
    out_kind: SampleKind,
) -> (r: Result<Frame, CoreError>)
    requires
        sources_wf(sources@, labels@),
    ensures
        !mode_valid(*mode, sources@.len() as int) ==> r == Err::<Frame, CoreError>(
            CoreError::InvalidModeParameters,
        ),
        mode_valid(*mode, sources@.len() as int) && !kinds_supported(sources@[0].kind, out_kind)
            ==> r == Err::<Frame, CoreError>(CoreError::UnsupportedSampleKind),
        mode_valid(*mode, sources@.len() as int) && kinds_supported(sources@[0].kind, out_kind)
            && degenerate_spec(*mode, labels@) && sources@[0].has_samples() ==> r == Err::<
            Frame,
            CoreError,
        >(CoreError::DegenerateAggregate),
        mode_valid(*mode, sources@.len() as int) && kinds_supported(sources@[0].kind, out_kind) && !(
        degenerate_spec(*mode, labels@) && sources@[0].has_samples()) ==> (r matches Ok(out)
            && output_matches(out, *mode, sources@, labels@, out_kind)),
{
    if let Err(e) = validate_mode(mode, sources.len()) {
        return Err(e);
    }
    let src_kind = sources[0].kind;
    if !src_kind.kind_is_integer() || !out_kind.kind_is_integer() {
        return Err(CoreError::UnsupportedSampleKind);
    }
    let nplanes = sources[0].planes.len();
    let mut planes_out: Vec<Plane> = Vec::new();
    let mut scratch: Vec<u64> = Vec::new();
    let mut p: usize = 0;
    while p < nplanes
        invariant
            p <= nplanes,
            planes_out@.len() == p,
            forall|q: int|
                0 <= q < p ==> (#[trigger] planes_out@[q]).width == sources@[0].planes@[q].width
                    && planes_out@[q].height == sources@[0].planes@[q].height,
            forall|q: int| 0 <= q < p ==> (#[trigger] planes_out@[q]).wf(out_kind),
            forall|q: int, t: int|
                0 <= q < p && 0 <= t < planes_out@[q].data@.len() ==> (#[trigger] planes_out@[
                q].data@[t]) as int == pixel_spec(*mode, sources@, labels@, out_kind, q, t),
            degenerate_spec(*mode, labels@) ==> forall|q: int|
                0 <= q < p ==> (#[trigger] sources@[0].planes@[q]).data@.len() == 0,
        decreases nplanes - p,
    {
        assert(sources@[0].planes@[p as int].wf(src_kind));
        let w = sources[0].planes[p].width;
        let h = sources[0].planes[p].height;
        let total = sources[0].planes[p].data.len();
        let mut data: Vec<u64> = vec![0u64; total];
        let mut i: usize = total;
        while i > 0
            invariant
                i <= total,
                data@.len() == total,
                p < nplanes,
                forall|t: int|
                    i <= t < total ==> (#[trigger] data@[t]) as int == pixel_spec(
                        *mode,
                        sources@,
                        labels@,
                        out_kind,
                        p as int,
                        t,
                    ),
                forall|t: int| i <= t < total ==> data@[t] < pow2(out_kind.spec_depth()),
                degenerate_spec(*mode, labels@) ==> i == total,
            decreases i,
        {
            let m = match compute_pixel(mode, sources, labels, out_kind, p, i - 1, &mut scratch) {
                Ok(m) => m,
                Err(e) => {
                    proof {
                        assert(sources@[0].planes@[p as int].data@.len() > 0);
                        assert(sources@[0].has_samples());
                    }
                    return Err(e);
                },
            };
            data[i - 1] = m;
            i = i - 1;
        }
        proof {
            if degenerate_spec(*mode, labels@) {
                assert(total == 0);
            }
        }
        planes_out.push(Plane { width: w, height: h, data });
        p = p + 1;
    }
    let out = Frame { kind: out_kind, planes: planes_out };
    proof {
        if degenerate_spec(*mode, labels@) {
            assert(!sources@[0].has_samples());
        }
        assert(out.wf());
        assert(out.same_shape(sources@[0]));
    }
    Ok(out)
}

/// Law: the output is schedule-independent.  Each output sample is a pure
/// function of its own coordinate's source column, so any two frames meeting
/// the driver's contract — however their scans were ordered or fanned out —
/// are bit-identical, sample for sample.
pub proof fn lemma_schedule_equivalence(
    a: Frame,
    b: Frame,
    mode: AggregationMode,
    sources: Seq<Frame>,
    labels: Seq<CategoryLabel>,
    out_kind: SampleKind,
)
    requires
        sources.len() >= 1,
        output_matches(a, mode, sources, labels, out_kind),
        output_matches(b, mode, sources, labels, out_kind),
    ensures
        same_samples(a, b),
{
    assert forall|p: int, i: int|
        0 <= p < a.planes@.len() && 0 <= i < a.planes@[p].data@.len() implies #[trigger] a.planes@[
    p].data@[i] == #[trigger] b.planes@[p].data@[i] by {
        assert(a.planes@[p].width == b.planes@[p].width);
        assert(a.planes@[p].height == b.planes@[p].height);
        assert(a.planes@[p].wf(out_kind) && b.planes@[p].wf(out_kind));
        assert(b.planes@[p].data@.len() == a.planes@[p].data@.len());
        assert(a.planes@[p].data@[i] as int == pixel_spec(mode, sources, labels, out_kind, p, i));
        assert(b.planes@[p].data@[i] as int == pixel_spec(mode, sources, labels, out_kind, p, i));
    }
}

} // verus!
