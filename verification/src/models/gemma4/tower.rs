//! What the media towers share: the places that their graphs ask a checkpoint
//! to fill, and the clamped linears.
use vstd::prelude::*;

use crate::models::gemma4::index;
use crate::models::gemma4::index::{shape_view_ok, G4Index, IndexError};
use crate::models::ops::{Buf, Op, Weight};
use crate::tensor;
use crate::tensor::{DType, TensorMeta};
use crate::text;
use crate::weights::LoadedWeights;

verus! {

/// What a place of a tower asks for.
#[derive(Clone, Copy, PartialEq, Eq, Debug, Structural)]
pub enum TowerNeed {
    /// A dense vector.
    Vector { len: usize },
    /// A dense table of this shape.
    Table { a: usize, b: usize, c: usize },
    Linear { n_out: usize, n_in: usize },
    /// A linear with optional bounds next to it, under its base name.
    Clip { n_out: usize, n_in: usize },
    /// The projection of patches, flat or as a convolution kernel.
    PatchProj { hidden: usize, patch: usize },
    /// Host-resident vectors and kernels.
    Host { len: usize },
    HostKernel { a: usize, b: usize, c: usize },
    HostKernel2d { a: usize, b: usize, c: usize, d: usize },
}

/// A place of a tower.
pub struct Place {
    pub name: String,
    pub need: TowerNeed,
}

/// What a [`Place`] is, mathematically.
pub struct PlaceSpec {
    pub name: Seq<char>,
    pub need: TowerNeed,
}

impl View for Place {
    type V = PlaceSpec;

    open spec fn view(&self) -> PlaceSpec {
        PlaceSpec { name: self.name@, need: self.need }
    }
}

pub open spec fn views(v: Seq<Place>) -> Seq<PlaceSpec> {
    Seq::new(v.len(), |i: int| v[i]@)
}

pub open spec fn place(name: Seq<char>, need: TowerNeed) -> PlaceSpec {
    PlaceSpec { name, need }
}

/// Why a place cannot be filled.
#[derive(Clone, Copy, PartialEq, Eq, Debug, Structural)]
pub enum TowerError {
    Index(IndexError),
    /// The patch projection has another number of elements.
    PatchElems { got: usize, want: usize },
}

/// What stops a host-resident tensor of shape `expect`.
pub open spec fn host_fault(w: &LoadedWeights, name: Seq<char>, expect: Seq<usize>) -> Option<
    IndexError,
> {
    match index::resolve(w, name) {
        None => Some(IndexError::Missing),
        Some(i) => {
            let m = w.metas@[i];
            if !index::view_ok(m.shape@, expect) {
                Some(IndexError::Shape)
            } else if !index::is_plain(m.dtype) {
                Some(IndexError::Unsupported { dtype: m.dtype })
            } else {
                None
            }
        },
    }
}

/// What stops the projection of patches.
pub open spec fn patch_fault(w: &LoadedWeights, name: Seq<char>, hidden: int, patch: int) -> Option<
    TowerError,
> {
    match index::resolve(w, name) {
        None => Some(TowerError::Index(IndexError::Missing)),
        Some(i) => {
            let m = w.metas@[i];
            let n = w.data@[i]@.len() / (tensor::block_len(m.dtype) as nat);
            if !index::is_plain(m.dtype) {
                Some(TowerError::Index(IndexError::Unsupported { dtype: m.dtype }))
            } else if n != hidden * (3 * patch * patch) {
                Some(
                    TowerError::PatchElems {
                        got: n as usize,
                        want: (hidden * (3 * patch * patch)) as usize,
                    },
                )
            } else {
                None
            }
        },
    }
}

pub open spec fn as_tower_error(e: Option<IndexError>) -> Option<TowerError> {
    match e {
        Some(x) => Some(TowerError::Index(x)),
        None => None,
    }
}

/// What stops a place from being filled.
pub open spec fn place_fault(w: &LoadedWeights, shift: u32, s: PlaceSpec) -> Option<TowerError> {
    match s.need {
        TowerNeed::Vector { len } => as_tower_error(index::dense_fault(w, shift, s.name, seq![len])),
        TowerNeed::Table { a, b, c } => as_tower_error(
            index::dense_fault(w, shift, s.name, seq![a, b, c]),
        ),
        TowerNeed::Linear { n_out, n_in } => as_tower_error(
            index::linear_fault(w, shift, s.name, n_out, n_in),
        ),
        TowerNeed::Clip { n_out, n_in } => as_tower_error(
            index::linear_fault(w, shift, index::clip_weight(w, s.name), n_out, n_in),
        ),
        TowerNeed::PatchProj { hidden, patch } => patch_fault(
            w,
            s.name,
            hidden as int,
            patch as int,
        ),
        TowerNeed::Host { len } => as_tower_error(host_fault(w, s.name, seq![len])),
        TowerNeed::HostKernel { a, b, c } => as_tower_error(host_fault(w, s.name, seq![a, b, c])),
        TowerNeed::HostKernel2d { a, b, c, d } => as_tower_error(
            host_fault(w, s.name, seq![a, b, c, d]),
        ),
    }
}

/// The entry that fills a place.
pub open spec fn place_entry(w: &LoadedWeights, s: PlaceSpec) -> Option<int> {
    match s.need {
        TowerNeed::Clip { .. } => index::resolve(w, index::clip_weight(w, s.name)),
        _ => index::resolve(w, s.name),
    }
}

/// The sizes of a place are machine numbers.
pub open spec fn place_sized(s: PlaceSpec) -> bool {
    match s.need {
        TowerNeed::Table { b, c, .. } => b * c <= usize::MAX,
        TowerNeed::PatchProj { hidden, patch } => 3 * patch * patch <= usize::MAX && hidden * (3
            * patch * patch) <= usize::MAX,
        TowerNeed::HostKernel { b, c, .. } => b * c <= usize::MAX,
        TowerNeed::HostKernel2d { b, c, d, .. } => b * c <= usize::MAX && b * c * d <= usize::MAX,
        _ => true,
    }
}

proof fn lemma_small_1(a: usize)
    ensures
        index::small_shape(seq![a]),
{
    let t = seq![a].skip(1);
    assert(t.take(0).len() == 0);
}

proof fn lemma_small_3(a: usize, b: usize, c: usize)
    requires
        b * c <= usize::MAX,
    ensures
        index::small_shape(seq![a, b, c]),
{
    let t = seq![a, b, c].skip(1);
    assert(t.take(0).len() == 0);
    assert(t.take(1) =~= seq![b]);
    assert(seq![b].drop_last().len() == 0);
    assert(t.take(2) =~= seq![b, c]);
    assert(seq![b, c].drop_last() =~= seq![b]);
    assert(tensor::product(seq![b]) == b) by {
        reveal_with_fuel(tensor::product, 2);
    }
    assert(tensor::product(seq![b, c]) == b * c) by {
        reveal_with_fuel(tensor::product, 2);
    }
    assert(tensor::product(t.take(0)) == 1);
    assert forall|i: int| 0 <= i <= 2 implies #[trigger] tensor::product(t.take(i))
        <= usize::MAX by {
        assert(i == 0 || i == 1 || i == 2);
    }
}

proof fn lemma_small_4(a: usize, b: usize, c: usize, d: usize)
    requires
        b * c <= usize::MAX,
        b * c * d <= usize::MAX,
    ensures
        index::small_shape(seq![a, b, c, d]),
{
    let t = seq![a, b, c, d].skip(1);
    assert(t.take(0).len() == 0);
    assert(t.take(1) =~= seq![b]);
    assert(seq![b].drop_last().len() == 0);
    assert(t.take(2) =~= seq![b, c]);
    assert(seq![b, c].drop_last() =~= seq![b]);
    assert(t.take(3) =~= seq![b, c, d]);
    assert(seq![b, c, d].drop_last() =~= seq![b, c]);
    assert(tensor::product(seq![b]) == b) by {
        reveal_with_fuel(tensor::product, 2);
    }
    assert(tensor::product(seq![b, c]) == b * c) by {
        reveal_with_fuel(tensor::product, 2);
    }
    assert(tensor::product(seq![b, c, d]) == b * c * d) by {
        reveal_with_fuel(tensor::product, 2);
    }
    assert(tensor::product(t.take(0)) == 1);
    assert forall|i: int| 0 <= i <= 3 implies #[trigger] tensor::product(t.take(i))
        <= usize::MAX by {
        assert(i == 0 || i == 1 || i == 2 || i == 3);
    }
}

fn wrap(r: Result<usize, IndexError>) -> (o: Result<usize, TowerError>)
    ensures
        o == (match r {
            Ok(i) => Ok::<usize, TowerError>(i),
            Err(e) => Err::<usize, TowerError>(TowerError::Index(e)),
        }),
{
    match r {
        Ok(i) => Ok(i),
        Err(e) => Err(TowerError::Index(e)),
    }
}

fn check_host(ix: &G4Index, name: &str, expect: &[usize]) -> (r: Result<usize, IndexError>)
    requires
        index::sized(ix.weights),
        index::small_shape(expect@),
    ensures
        match r {
            Ok(i) => host_fault(ix.weights, name@, expect@) is None && index::resolve(
                ix.weights,
                name@,
            ) == Some(i as int),
            Err(e) => host_fault(ix.weights, name@, expect@) == Some(e),
        },
{
    let i: usize = ix.meta(name)?;
    let m: &TensorMeta = &ix.weights.metas[i];
    assert(*m == ix.weights.metas@[i as int]);
    if !shape_view_ok(m.shape.as_slice(), expect) {
        return Err(IndexError::Shape);
    }
    match m.dtype {
        DType::F32 | DType::F16 | DType::BF16 => Ok(i),
        other => Err(IndexError::Unsupported { dtype: other }),
    }
}

fn check_patch(ix: &G4Index, name: &str, hidden: usize, patch: usize) -> (r: Result<
    usize,
    TowerError,
>)
    requires
        ix.weights.wf(),
        3 * patch * patch <= usize::MAX,
        hidden * (3 * patch * patch) <= usize::MAX,
    ensures
        match r {
            Ok(i) => patch_fault(ix.weights, name@, hidden as int, patch as int) is None
                && index::resolve(ix.weights, name@) == Some(i as int),
            Err(e) => patch_fault(ix.weights, name@, hidden as int, patch as int) == Some(e),
        },
{
    let i: usize = match ix.meta(name) {
        Ok(i) => i,
        Err(e) => {
            return Err(TowerError::Index(e));
        },
    };
    let m: &TensorMeta = &ix.weights.metas[i];
    assert(*m == ix.weights.metas@[i as int]);
    match m.dtype {
        DType::F32 | DType::F16 | DType::BF16 => {},
        other => {
            return Err(TowerError::Index(IndexError::Unsupported { dtype: other }));
        },
    }
    let n: usize = ix.weights.data[i].len() / tensor::block_bytes(m.dtype);
    assert(3 * patch <= usize::MAX) by (nonlinear_arith)
        requires
            3 * patch * patch <= usize::MAX,
            patch >= 0,
            3 * patch <= usize::MAX || patch >= 1,
    ;
    let want: usize = hidden * (3 * patch * patch);
    if n != want {
        return Err(TowerError::PatchElems { got: n, want });
    }
    Ok(i)
}

/// Checks that a place can be filled, and finds the entry for it.
pub fn check_place(ix: &G4Index, s: &Place) -> (r: Result<usize, TowerError>)
    requires
        ix.weights.wf(),
        index::sized(ix.weights),
        index::sound_states(ix.weights),
        place_sized(s@),
    ensures
        match r {
            Ok(i) => place_fault(ix.weights, ix.norm_shift, s@) is None && place_entry(
                ix.weights,
                s@,
            ) == Some(i as int),
            Err(e) => place_fault(ix.weights, ix.norm_shift, s@) == Some(e),
        },
{
    let name: &str = s.name.as_str();
    match s.need {
        TowerNeed::Vector { len } => {
            let shape: [usize; 1] = [len];
            proof {
                lemma_small_1(len);
                assert(shape@ =~= seq![len]);
            }
            wrap(ix.check_dense(name, &shape))
        },
        TowerNeed::Table { a, b, c } => {
            let shape: [usize; 3] = [a, b, c];
            proof {
                lemma_small_3(a, b, c);
                assert(shape@ =~= seq![a, b, c]);
            }
            wrap(ix.check_dense(name, &shape))
        },
        TowerNeed::Linear { n_out, n_in } => wrap(ix.check_linear(name, n_out, n_in)),
        TowerNeed::Clip { n_out, n_in } => {
            let wrapped: String = text::join(name, ".linear.weight");
            if ix.has(wrapped.as_str()) {
                wrap(ix.check_linear(wrapped.as_str(), n_out, n_in))
            } else {
                let plain: String = text::join(name, ".weight");
                wrap(ix.check_linear(plain.as_str(), n_out, n_in))
            }
        },
        TowerNeed::PatchProj { hidden, patch } => check_patch(ix, name, hidden, patch),
        TowerNeed::Host { len } => {
            let shape: [usize; 1] = [len];
            proof {
                lemma_small_1(len);
                assert(shape@ =~= seq![len]);
            }
            wrap(check_host(ix, name, &shape))
        },
        TowerNeed::HostKernel { a, b, c } => {
            let shape: [usize; 3] = [a, b, c];
            proof {
                lemma_small_3(a, b, c);
                assert(shape@ =~= seq![a, b, c]);
            }
            wrap(check_host(ix, name, &shape))
        },
        TowerNeed::HostKernel2d { a, b, c, d } => {
            let shape: [usize; 4] = [a, b, c, d];
            proof {
                lemma_small_4(a, b, c, d);
                assert(shape@ =~= seq![a, b, c, d]);
            }
            wrap(check_host(ix, name, &shape))
        },
    }
}

/// The first of the first `n` places that cannot be filled.
pub open spec fn first_fault(w: &LoadedWeights, shift: u32, ss: Seq<PlaceSpec>, n: int) -> Option<
    (usize, TowerError),
>
    decreases n,
{
    if n <= 0 {
        None
    } else {
        match first_fault(w, shift, ss, n - 1) {
            Some(e) => Some(e),
            None => match place_fault(w, shift, ss[n - 1]) {
                Some(error) => Some(((n - 1) as usize, error)),
                None => None,
            },
        }
    }
}

proof fn lemma_fault_stays(w: &LoadedWeights, shift: u32, ss: Seq<PlaceSpec>, a: int, n: int)
    requires
        0 <= a <= n,
        first_fault(w, shift, ss, a) is Some,
    ensures
        first_fault(w, shift, ss, n) == first_fault(w, shift, ss, a),
    decreases n - a,
{
    if a < n {
        lemma_fault_stays(w, shift, ss, a, n - 1);
    }
}

/// `v` holds the entries of the places `ss`.
pub open spec fn entries_are(v: Seq<usize>, w: &LoadedWeights, ss: Seq<PlaceSpec>) -> bool {
    &&& v.len() == ss.len()
    &&& forall|i: int| 0 <= i < v.len() ==> place_entry(w, ss[i]) == Some(#[trigger] v[i] as int)
}

pub fn check_places(ix: &G4Index, ss: &Vec<Place>) -> (r: Result<Vec<usize>, (usize, TowerError)>)
    requires
        ix.weights.wf(),
        index::sized(ix.weights),
        index::sound_states(ix.weights),
        forall|i: int| 0 <= i < ss@.len() ==> place_sized(#[trigger] views(ss@)[i]),
    ensures
        match r {
            Ok(v) => {
                &&& first_fault(ix.weights, ix.norm_shift, views(ss@), ss@.len() as int) is None
                &&& entries_are(v@, ix.weights, views(ss@))
            },
            Err(e) => first_fault(ix.weights, ix.norm_shift, views(ss@), ss@.len() as int) == Some(
                e,
            ),
        },
{
    let ghost vs = views(ss@);
    let mut out: Vec<usize> = Vec::new();
    let mut i: usize = 0;
    while i < ss.len()
        invariant
            i <= ss@.len(),
            vs == views(ss@),
            ix.weights.wf(),
            index::sized(ix.weights),
            index::sound_states(ix.weights),
            forall|k: int| 0 <= k < ss@.len() ==> place_sized(#[trigger] vs[k]),
            first_fault(ix.weights, ix.norm_shift, vs, i as int) is None,
            out@.len() == i,
            forall|k: int|
                0 <= k < i ==> place_entry(ix.weights, vs[k]) == Some(#[trigger] out@[k] as int),
        decreases ss@.len() - i,
    {
        assert(vs[i as int] == ss@[i as int]@);
        assert(place_sized(vs[i as int]));
        match check_place(ix, &ss[i]) {
            Ok(e) => {
                out.push(e);
            },
            Err(error) => {
                proof {
                    lemma_fault_stays(ix.weights, ix.norm_shift, vs, i + 1, ss@.len() as int);
                }
                return Err((i, error));
            },
        }
        i = i + 1;
    }
    Ok(out)
}

pub(crate) fn add_place(v: &mut Vec<Place>, name: String, need: TowerNeed)
    ensures
        views(final(v)@) == views(old(v)@).push(place(name@, need)),
{
    let ghost before = v@;
    v.push(Place { name, need });
    assert(views(v@) =~= views(before).push(place(name@, need)));
}

/// The name of a tensor of layer `i` of a tower.
pub open spec fn layer_name(prefix: Seq<char>, i: int, s: Seq<char>) -> Seq<char> {
    prefix + text::numeral(i) + "."@ + s
}

pub(crate) fn add_in_layer(v: &mut Vec<Place>, prefix: &str, i: usize, s: &str, need: TowerNeed)
    ensures
        views(final(v)@) == views(old(v)@).push(place(layer_name(prefix@, i as int, s@), need)),
{
    let mut n: String = prefix.to_owned();
    text::push_number(&mut n, i);
    n.append(".");
    n.append(s);
    add_place(v, n, need)
}

pub(crate) fn add_named(v: &mut Vec<Place>, s: &str, need: TowerNeed)
    ensures
        views(final(v)@) == views(old(v)@).push(place(s@, need)),
{
    add_place(v, s.to_owned(), need)
}

/// What a linear clamps its input and its output to.
#[derive(Clone, Copy, PartialEq, Eq, Debug)]
pub struct Clips {
    pub input: Option<(u32, u32)>,
    pub output: Option<(u32, u32)>,
}

/// The steps of a linear: where the input is clamped, a copy of it is.
pub open spec fn clip_ops(
    c: Clips,
    weight: Weight,
    src: Buf,
    dst: Buf,
    rows: int,
    n_in: usize,
    n_out: usize,
) -> Seq<Op> {
    (match c.input {
        Some((lo, hi)) => seq![
            Op::Copy { src, dst: Buf::Clip, n: (rows * n_in) as usize },
            Op::Clamp { buf: Buf::Clip, lo, hi, n: (rows * n_in) as usize },
        ],
        None => Seq::empty(),
    }) + seq![
        Op::Gemm {
            weight,
            src: if c.input is Some {
                Buf::Clip
            } else {
                src
            },
            dst,
            rows: rows as usize,
            n: n_out,
            k: n_in,
        },
    ] + (match c.output {
        Some((lo, hi)) => seq![Op::Clamp { buf: dst, lo, hi, n: (rows * n_out) as usize }],
        None => Seq::empty(),
    })
}

pub(crate) fn push_clip(
    v: &mut Vec<Op>,
    c: Clips,
    weight: Weight,
    src: Buf,
    dst: Buf,
    rows: usize,
    n_in: usize,
    n_out: usize,
)
    requires
        rows * n_in <= usize::MAX,
        rows * n_out <= usize::MAX,
    ensures
        final(v)@ == old(v)@ + clip_ops(c, weight, src, dst, rows as int, n_in, n_out),
{
    let ghost before = v@;
    let from: Buf = match c.input {
        Some((lo, hi)) => {
            v.push(Op::Copy { src, dst: Buf::Clip, n: rows * n_in });
            v.push(Op::Clamp { buf: Buf::Clip, lo, hi, n: rows * n_in });
            Buf::Clip
        },
        None => src,
    };
    v.push(Op::Gemm { weight, src: from, dst, rows, n: n_out, k: n_in });
    match c.output {
        Some((lo, hi)) => {
            v.push(Op::Clamp { buf: dst, lo, hi, n: rows * n_out });
        },
        None => {},
    }
    assert(v@ =~= before + clip_ops(c, weight, src, dst, rows as int, n_in, n_out));
}

} // verus!
