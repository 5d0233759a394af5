//! Token-identity rows of the per-layer inputs, read from the table in host
//! memory.
use vstd::prelude::*;

use crate::ieee::Format;
use crate::models::gemma4::config::{G4Config, G4TextCfg};
use crate::models::gemma4::feed;
use crate::models::gemma4::feed::square_root_of;
use crate::num;
use crate::num::{bf16_to_f32, f16_to_f32, f32_mul, f32_to_f16, read_le16};
use crate::quant::gguf;
use crate::quant::gguf::{dequant_host, DequantError};
use crate::tensor;
use crate::tensor::{is_gguf_block, storage_bytes, DType};

verus! {

/// The row that a token reads: media placeholders read the padding token's.
pub open spec fn row_of(cfg: G4Config, token: u32) -> u32 {
    if token == cfg.image_token_id || token == cfg.audio_token_id {
        cfg.pad_token_id
    } else {
        token
    }
}

/// Media placeholders and the padding token read the same row.
pub proof fn law_placeholders_read_the_padding_row(cfg: G4Config)
    ensures
        row_of(cfg, cfg.image_token_id) == row_of(cfg, cfg.pad_token_id),
        row_of(cfg, cfg.audio_token_id) == row_of(cfg, cfg.pad_token_id),
{
}

/// Why a row could not be read.
#[derive(Clone, Copy, PartialEq, Eq, Debug, Structural)]
pub enum IdentityError {
    /// The token lies outside the vocabulary of the per-layer inputs.
    Vocab { id: u32, vocab: usize },
    Dequant(DequantError),
}

/// Elements of a row.
pub open spec fn row_elems(t: G4TextCfg) -> int {
    t.n_layers * t.ple_dim
}

/// Bytes of a row.
pub open spec fn row_bytes(t: G4TextCfg, dt: DType) -> int {
    if tensor::is_block(dt) {
        row_elems(t) / tensor::grain(dt) * tensor::block_len(dt)
    } else {
        row_elems(t) * 2
    }
}

/// The stored element `e` of row `id`, in single precision.
pub open spec fn stored(t: G4TextCfg, dt: DType, table: Seq<u8>, id: int, e: int) -> int {
    let w = row_bytes(t, dt);
    if tensor::is_block(dt) {
        let row = table.subrange(id * w, id * w + w);
        Format::F16.convert(
            Format::F32,
            gguf::element(dt, gguf::block(dt, row, e / tensor::grain(dt)), e % tensor::grain(dt)),
        )
    } else if dt == DType::BF16 {
        num::le16(table, id * w + 2 * e) * 0x1_0000
    } else {
        Format::F16.convert(Format::F32, num::le16(table, id * w + 2 * e))
    }
}

/// Element `e` of the row that token `token` yields: the stored one times the
/// root of the row width.
pub open spec fn identity(cfg: G4Config, dt: DType, table: Seq<u8>, token: u32, e: int) -> int {
    let t = cfg.text;
    Format::F32.convert(
        Format::F16,
        Format::F32.product(
            stored(t, dt, table, row_of(cfg, token) as int, e),
            feed::root_of(t.ple_dim as int),
        ),
    )
}

/// What stops the first of `tokens` that cannot be read.
pub open spec fn row_fault(cfg: G4Config, dt: DType, token: u32) -> Option<IdentityError> {
    let t = cfg.text;
    if row_of(cfg, token) >= t.ple_vocab {
        Some(IdentityError::Vocab { id: row_of(cfg, token), vocab: t.ple_vocab })
    } else if tensor::is_block(dt) && row_elems(t) % tensor::grain(dt) != 0 {
        Some(
            IdentityError::Dequant(
                DequantError::SizeMismatch {
                    format: dt,
                    elems: row_elems(t) as usize,
                    bytes: row_bytes(t, dt) as usize,
                },
            ),
        )
    } else {
        None
    }
}

pub open spec fn first_row_fault(cfg: G4Config, dt: DType, tokens: Seq<u32>, n: int) -> Option<
    IdentityError,
>
    decreases n,
{
    if n <= 0 {
        None
    } else {
        match first_row_fault(cfg, dt, tokens, n - 1) {
            Some(e) => Some(e),
            None => row_fault(cfg, dt, tokens[n - 1]),
        }
    }
}

/// The rows of all tokens, one after the other.
pub open spec fn identities(cfg: G4Config, dt: DType, table: Seq<u8>, tokens: Seq<u32>, v: Seq<u16>) -> bool {
    &&& v.len() == tokens.len() * row_elems(cfg.text)
    &&& forall|k: int, e: int|
        #![trigger identity(cfg, dt, table, tokens[k], e)]
        0 <= k < tokens.len() && 0 <= e < row_elems(cfg.text) ==> v[k * row_elems(cfg.text) + e]
            == identity(cfg, dt, table, tokens[k], e)
}

/// The row that a token reads lies within a table of `bytes` bytes.
pub open spec fn row_lies(cfg: G4Config, dt: DType, token: u32, bytes: int) -> bool {
    (row_of(cfg, token) + 1) * row_bytes(cfg.text, dt) <= bytes
}

/// Every row that is read before the first fault lies within the table.
pub open spec fn rows_lie(cfg: G4Config, dt: DType, tokens: Seq<u32>, bytes: int) -> bool {
    forall|k: int|
        0 <= k < tokens.len() && first_row_fault(cfg, dt, tokens, k) is None && row_of(
            cfg,
            tokens[k],
        ) < cfg.text.ple_vocab ==> #[trigger] row_lies(cfg, dt, tokens[k], bytes)
}

fn push_row(cfg: &G4Config, dt: DType, table: &[u8], token: u32, out: &mut Vec<u16>) -> (r: Result<
    (),
    IdentityError,
>)
    requires
        row_elems(cfg.text) * 2 <= usize::MAX,
        row_bytes(cfg.text, dt) <= usize::MAX,
        row_of(*cfg, token) < cfg.text.ple_vocab ==> row_lies(*cfg, dt, token, table.len() as int),
    ensures
        match r {
            Ok(_) => {
                let n = old(out)@.len();
                &&& row_fault(*cfg, dt, token) is None
                &&& final(out)@.len() == n + row_elems(cfg.text)
                &&& forall|i: int| 0 <= i < n ==> #[trigger] final(out)@[i] == old(out)@[i]
                &&& forall|e: int|
                    #![trigger identity(*cfg, dt, table@, token, e)]
                    0 <= e < row_elems(cfg.text) ==> final(out)@[n + e] == identity(
                        *cfg,
                        dt,
                        table@,
                        token,
                        e,
                    )
            },
            Err(x) => row_fault(*cfg, dt, token) == Some(x),
        },
{
    let t: &G4TextCfg = &cfg.text;
    let id: u32 = if token == cfg.image_token_id || token == cfg.audio_token_id {
        cfg.pad_token_id
    } else {
        token
    };
    if id as usize >= t.ple_vocab {
        return Err(IdentityError::Vocab { id, vocab: t.ple_vocab });
    }
    proof {
        let w = row_bytes(*t, dt);
        let (a, b) = (t.n_layers as int, t.ple_dim as int);
        assert(a * b >= 0) by (nonlinear_arith)
            requires
                a >= 0,
                b >= 0,
        ;
        assert(w >= 0) by {
            if tensor::is_block(dt) {
                vstd::arithmetic::div_mod::lemma_div_pos_is_pos(row_elems(*t), tensor::grain(dt));
                let q = row_elems(*t) / tensor::grain(dt);
                let l = tensor::block_len(dt);
                assert(q * l >= 0) by (nonlinear_arith)
                    requires
                        q >= 0,
                        l >= 0,
                ;
            }
        }
        let i = id as int;
        assert(0 <= i * w && i * w + w == (i + 1) * w) by (nonlinear_arith)
            requires
                0 <= i,
                w >= 0,
        ;
    }
    let n: usize = t.n_layers * t.ple_dim;
    let scale: u32 = square_root_of(t.ple_dim);
    let ghost before = out@;
    if is_gguf_block(dt) {
        let w: usize = storage_bytes(dt, n);
        let off: usize = (id as usize) * w;
        let row: &[u8] = vstd::slice::slice_subrange(table, off, off + w);
        let mut buf: Vec<u16> = Vec::new();
        let mut i: usize = 0;
        while i < n
            invariant
                i <= n,
                buf@.len() == i,
            decreases n - i,
        {
            buf.push(0);
            i = i + 1;
        }
        match dequant_host(dt, row, n, buf.as_mut_slice()) {
            Ok(_) => {},
            Err(e) => {
                return Err(IdentityError::Dequant(e));
            },
        }
        let mut e: usize = 0;
        while e < n
            invariant
                e <= n,
                n == row_elems(*t),
                cfg.text == *t,
                tensor::is_block(dt),
                id == row_of(*cfg, token),
                w == row_bytes(*t, dt),
                row@ == table@.subrange(id * w, id * w + w),
                scale == feed::root_of(t.ple_dim as int),
                buf@.len() == n,
                forall|i: int|
                    0 <= i < n ==> #[trigger] buf@[i] == gguf::element(
                        dt,
                        gguf::block(dt, row@, i / tensor::grain(dt)),
                        i % tensor::grain(dt),
                    ),
                out@.len() == before.len() + e,
                forall|i: int| 0 <= i < before.len() ==> #[trigger] out@[i] == before[i],
                forall|i: int|
                    #![trigger identity(*cfg, dt, table@, token, i)]
                    0 <= i < e ==> out@[before.len() + i] == identity(*cfg, dt, table@, token, i),
            decreases n - e,
        {
            assert(buf@[e as int] == gguf::element(
                dt,
                gguf::block(dt, row@, e as int / tensor::grain(dt)),
                e as int % tensor::grain(dt),
            ));
            out.push(f32_to_f16(f32_mul(f16_to_f32(buf[e]), scale)));
            e = e + 1;
        }
        return Ok(());
    }
    let bf16: bool = match dt {
        DType::BF16 => true,
        _ => false,
    };
    let off: usize = (id as usize) * (n * 2);
    let mut e: usize = 0;
    while e < n
        invariant
            e <= n,
            n == row_elems(*t),
            n * 2 <= usize::MAX,
            cfg.text == *t,
            !tensor::is_block(dt),
            bf16 == (dt == DType::BF16),
            id == row_of(*cfg, token),
            off == id * (n * 2),
            off + n * 2 <= table.len(),
            row_bytes(*t, dt) == n * 2,
            scale == feed::root_of(t.ple_dim as int),
            out@.len() == before.len() + e,
            forall|i: int| 0 <= i < before.len() ==> #[trigger] out@[i] == before[i],
            forall|i: int|
                #![trigger identity(*cfg, dt, table@, token, i)]
                0 <= i < e ==> out@[before.len() + i] == identity(*cfg, dt, table@, token, i),
        decreases n - e,
    {
        let raw: u16 = read_le16(table, off + 2 * e);
        let v: u32 = if bf16 {
            bf16_to_f32(raw)
        } else {
            f16_to_f32(raw)
        };
        out.push(f32_to_f16(f32_mul(v, scale)));
        e = e + 1;
    }
    Ok(())
}

/// The identity rows of `tokens`.
pub fn gather_ple_identity(cfg: &G4Config, dt: DType, table: &[u8], tokens: &[u32]) -> (r: Result<
    Vec<u16>,
    IdentityError,
>)
    requires
        row_elems(cfg.text) * 2 <= usize::MAX,
        row_bytes(cfg.text, dt) <= usize::MAX,
        rows_lie(*cfg, dt, tokens@, table.len() as int),
    ensures
        match r {
            Ok(v) => first_row_fault(*cfg, dt, tokens@, tokens@.len() as int) is None && identities(
                *cfg,
                dt,
                table@,
                tokens@,
                v@,
            ),
            Err(e) => first_row_fault(*cfg, dt, tokens@, tokens@.len() as int) == Some(e),
        },
{
    let mut out: Vec<u16> = Vec::new();
    let ghost w = row_elems(cfg.text);
    proof {
        let (a, b) = (cfg.text.n_layers as int, cfg.text.ple_dim as int);
        assert(a * b >= 0) by (nonlinear_arith)
            requires
                a >= 0,
                b >= 0,
        ;
    }
    let mut k: usize = 0;
    while k < tokens.len()
        invariant
            k <= tokens@.len(),
            w == row_elems(cfg.text),
            w >= 0,
            w * 2 <= usize::MAX,
            row_bytes(cfg.text, dt) <= usize::MAX,
            rows_lie(*cfg, dt, tokens@, table.len() as int),
            first_row_fault(*cfg, dt, tokens@, k as int) is None,
            out@.len() == k * w,
            forall|j: int, e: int|
                #![trigger identity(*cfg, dt, table@, tokens@[j], e)]
                0 <= j < k && 0 <= e < w ==> out@[j * w + e] == identity(
                    *cfg,
                    dt,
                    table@,
                    tokens@[j],
                    e,
                ),
        decreases tokens@.len() - k,
    {
        let ghost before = out@;
        match push_row(cfg, dt, table, tokens[k], &mut out) {
            Ok(_) => {},
            Err(e) => {
                proof {
                    lemma_first_fault(*cfg, dt, tokens@, k as int, tokens@.len() as int);
                }
                return Err(e);
            },
        }
        proof {
            assert((k + 1) * w == k * w + w) by (nonlinear_arith);
            assert forall|j: int, e: int|
                #![trigger identity(*cfg, dt, table@, tokens@[j], e)]
                0 <= j < k + 1 && 0 <= e < w implies out@[j * w + e] == identity(
                *cfg,
                dt,
                table@,
                tokens@[j],
                e,
            ) by {
                if j < k {
                    assert(0 <= j * w && j * w + e < k * w) by (nonlinear_arith)
                        requires
                            0 <= j < k,
                            0 <= e < w,
                    ;
                    assert(before[j * w + e] == identity(*cfg, dt, table@, tokens@[j], e));
                } else {
                    assert(out@[before.len() + e] == identity(*cfg, dt, table@, tokens@[k as int], e));
                }
            }
        }
        k = k + 1;
    }
    Ok(out)
}

proof fn lemma_first_fault(cfg: G4Config, dt: DType, tokens: Seq<u32>, k: int, n: int)
    requires
        0 <= k < n,
        first_row_fault(cfg, dt, tokens, k) is None,
        row_fault(cfg, dt, tokens[k]) is Some,
    ensures
        first_row_fault(cfg, dt, tokens, n) == row_fault(cfg, dt, tokens[k]),
    decreases n,
{
    if n > k + 1 {
        lemma_first_fault(cfg, dt, tokens, k, n - 1);
    }
}

/// A row is read from its own bytes of the table: two tables that agree on them
/// yield the same row, whatever the other rows hold. In a plain table the
/// element `e` of row `id` is the one behind all elements of the rows before.
pub proof fn law_rows_come_from_their_own_bytes(
    cfg: G4Config,
    dt: DType,
    a: Seq<u8>,
    b: Seq<u8>,
    token: u32,
    e: int,
)
    requires
        0 <= e < row_elems(cfg.text),
        row_lies(cfg, dt, token, a.len() as int),
        row_lies(cfg, dt, token, b.len() as int),
        ({
            let (id, w) = (row_of(cfg, token) as int, row_bytes(cfg.text, dt));
            a.subrange(id * w, id * w + w) == b.subrange(id * w, id * w + w)
        }),
        row_bytes(cfg.text, dt) >= 0,
    ensures
        identity(cfg, dt, a, token, e) == identity(cfg, dt, b, token, e),
        dt == DType::F16 ==> ({
            let f = Format::F32;
            let at = 2 * (row_of(cfg, token) * (cfg.text.n_layers * cfg.text.ple_dim) + e);
            identity(cfg, dt, a, token, e) == f.convert(
                Format::F16,
                f.product(
                    Format::F16.convert(f, a[at] + 256 * a[at + 1]),
                    f.root(f.of_int(cfg.text.ple_dim as int)),
                ),
            )
        }),
{
    let (id, w) = (row_of(cfg, token) as int, row_bytes(cfg.text, dt));
    let (x, y) = (a.subrange(id * w, id * w + w), b.subrange(id * w, id * w + w));
    let z = id * w;
    assert((id + 1) * w == z + w && z >= 0) by (nonlinear_arith)
        requires
            z == id * w,
            id >= 0,
            w >= 0,
    ;
    if !tensor::is_block(dt) {
        assert(w == 2 * row_elems(cfg.text));
        assert(x[2 * e] == a[z + 2 * e] && y[2 * e] == b[z + 2 * e]);
        assert(x[2 * e + 1] == a[z + 2 * e + 1] && y[2 * e + 1] == b[z + 2 * e + 1]);
        let n = row_elems(cfg.text);
        assert(z + 2 * e == 2 * (id * n + e)) by (nonlinear_arith)
            requires
                z == id * w,
                w == 2 * n,
        ;
    }
}

} // verus!
