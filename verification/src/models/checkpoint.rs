//! Which files of a snapshot are loaded, and what their metadata overrides.
use vstd::prelude::*;

use crate::models::gemma4::config::{G4Config, G4TextCfg};
use crate::models::gemma4::framing::Markers;
use crate::models::transformer::forecast;
use crate::quant::bnb;
use crate::tensor::{DType, TensorMeta};
use crate::text;
use crate::tokenizer::gguf;
use crate::tokenizer::merge;
use crate::tokenizer::words;
use crate::tokenizer::BpeTokenizer;
use crate::weights::LoadedWeights;

verus! {

// Names.

/// A selector without its tag: what stands before the first colon.
pub open spec fn repo_of(name: Seq<char>) -> Seq<char> {
    match text::find(name, seq![':'], 0) {
        Some(p) => name.take(p),
        None => name,
    }
}

/// The tag of a selector: what stands after the first colon.
pub open spec fn tag_of(name: Seq<char>) -> Option<Seq<char>> {
    match text::find(name, seq![':'], 0) {
        Some(p) => Some(name.skip(p + 1)),
        None => None,
    }
}

/// A selector's repository and tag.
pub fn split_selector(name: &str) -> (r: (String, Option<String>))
    ensures
        r.0@ == repo_of(name@),
        match r.1 {
            Some(t) => tag_of(name@) == Some(t@),
            None => tag_of(name@) is None,
        },
{
    let v: Vec<char> = text::to_chars(name);
    let n: usize = v.len();
    let mut colon: Vec<char> = Vec::new();
    colon.push(':');
    assert(colon@ =~= seq![':']);
    match text::find_from(&v, &colon, 0) {
        None => (name.to_owned(), None),
        Some(p) => {
            let a: String = text::to_string_range(&v, 0, p);
            let b: String = text::to_string_range(&v, p + 1, n);
            proof {
                assert(v@.subrange(0, p as int) =~= name@.take(p as int));
                assert(v@.subrange(p + 1, n as int) =~= name@.skip(p + 1));
            }
            (a, Some(b))
        },
    }
}

/// The directory of a selector: `ORG/REPO:TAG` is kept under `ORG__REPO@TAG`.
pub open spec fn folded(name: Seq<char>) -> Seq<char>
    decreases name.len(),
{
    if name.len() == 0 {
        seq![]
    } else {
        let c = name.last();
        folded(name.drop_last()) + (if c == '/' {
            seq!['_', '_']
        } else if c == ':' {
            seq!['@']
        } else {
            seq![c]
        })
    }
}

/// Without a tag, a selector and its repository name one directory.
pub proof fn law_untagged_names_share_a_directory(name: Seq<char>)
    requires
        tag_of(name) is None,
    ensures
        folded(repo_of(name)) == folded(name),
{
}

/// The name of the directory that a selector is kept in.
pub fn local_name(name: &str) -> (r: String)
    ensures
        r@ == folded(name@),
{
    let v: Vec<char> = text::to_chars(name);
    let mut out: Vec<char> = Vec::new();
    let mut k: usize = 0;
    assert(v@.take(0) =~= seq![]);
    while k < v.len()
        invariant
            k <= v@.len(),
            out@ == folded(v@.take(k as int)),
        decreases v@.len() - k,
    {
        let c: char = v[k];
        assert(v@.take(k + 1).drop_last() =~= v@.take(k as int));
        if c == '/' {
            out.push('_');
            out.push('_');
        } else if c == ':' {
            out.push('@');
        } else {
            out.push(c);
        }
        assert(out@ =~= folded(v@.take(k + 1)));
        k += 1;
    }
    assert(v@.take(k as int) =~= name@);
    text::to_string(&out)
}

/// How a snapshot is loaded.
#[derive(Clone, Copy, PartialEq, Eq, Debug, Structural)]
pub enum Route {
    Gguf,
    Safetensors,
    /// There is a directory, but no configuration in it.
    Incomplete,
    Absent,
}

/// A tag, or GGUF files without a configuration, select the GGUF loader.
pub fn route(tagged: bool, ggufs: usize, has_config: bool, has_dir: bool) -> (r: Route)
    ensures
        r == (if tagged || (ggufs > 0 && !has_config) {
            Route::Gguf
        } else if has_config {
            Route::Safetensors
        } else if has_dir {
            Route::Incomplete
        } else {
            Route::Absent
        }),
{
    if tagged || (ggufs > 0 && !has_config) {
        Route::Gguf
    } else if has_config {
        Route::Safetensors
    } else if has_dir {
        Route::Incomplete
    } else {
        Route::Absent
    }
}

/// The one quantization method that safetensors checkpoints may carry.
pub open spec fn quant_ok(method: Option<Seq<char>>) -> bool {
    method is None || method->0 == "bitsandbytes"@
}

/// Whether a method is accepted, and whether packed weights are expanded on
/// the host: everywhere but in the pipeline that keeps them packed.
pub fn quant_gate(method: Option<&str>, model_type: &str) -> (r: Result<bool, ()>)
    ensures
        match r {
            Ok(expand) => quant_ok(
                match method {
                    Some(m) => Some(m@),
                    None => None,
                },
            ) && expand == (method is Some && model_type@ != "gemma4"@),
            Err(()) => !quant_ok(
                match method {
                    Some(m) => Some(m@),
                    None => None,
                },
            ),
        },
{
    match method {
        None => Ok(false),
        Some(m) => if text::same(m, "bitsandbytes") {
            Ok(!text::same(model_type, "gemma4"))
        } else {
            Err(())
        },
    }
}

// GGUF files.

/// A companion file with towers; never a model by itself.
pub open spec fn is_towers(file: Seq<char>) -> bool {
    text::has(text::lowered(file), "mmproj"@)
}

/// A file that the tag selects.
pub open spec fn selected(file: Seq<char>, tag: Option<Seq<char>>) -> bool {
    !is_towers(file) && (tag is None || text::has(text::lowered(file), text::lowered(tag->0)))
}

/// How many of the first `n` files the tag selects.
pub open spec fn selection(files: Seq<String>, n: int, tag: Option<Seq<char>>) -> int
    decreases n,
{
    if n <= 0 {
        0
    } else {
        selection(files, n - 1, tag) + (if selected(files[n - 1]@, tag) {
            1int
        } else {
            0int
        })
    }
}

/// The first of the shortest names that the tag selects.
pub open spec fn shortest(files: Seq<String>, n: int, tag: Option<Seq<char>>) -> Option<int>
    decreases n,
{
    if n <= 0 {
        None
    } else {
        let b = shortest(files, n - 1, tag);
        if selected(files[n - 1]@, tag) && (b is None || words::size(files[n - 1]@) < words::size(
            files[b->0]@,
        )) {
            Some(n - 1)
        } else {
            b
        }
    }
}

/// Why no file is loaded.
#[derive(Clone, Copy, PartialEq, Eq, Debug, Structural)]
pub enum PickError {
    Absent,
    NoMatch,
    /// Several quantizations and no tag.
    Ambiguous { files: usize },
}

fn fits(file: &str, tag: Option<&str>) -> (r: bool)
    ensures
        r == selected(
            file@,
            match tag {
                Some(t) => Some(t@),
                None => None,
            },
        ),
{
    let f: String = text::lower_case(file);
    if text::contains(f.as_str(), "mmproj") {
        return false;
    }
    match tag {
        None => true,
        Some(t) => {
            let t: String = text::lower_case(t);
            text::contains(f.as_str(), t.as_str())
        },
    }
}

/// The file that a tag selects: of several the shortest name.
pub fn pick_gguf(files: &Vec<String>, tag: Option<&str>) -> (r: Result<usize, PickError>)
    ensures
        ({
            let t = match tag {
                Some(t) => Some(t@),
                None => None,
            };
            let n = selection(files@, files@.len() as int, t);
            match r {
                Ok(i) => shortest(files@, files@.len() as int, t) == Some(i as int) && n >= 1 && (
                tag is Some || n == 1) && i < files@.len(),
                Err(PickError::Absent) => files@.len() == 0,
                Err(PickError::NoMatch) => files@.len() > 0 && n == 0,
                Err(PickError::Ambiguous { files: k }) => tag is None && n > 1 && k == n,
            }
        }),
{
    let ghost t = match tag {
        Some(t) => Some(t@),
        None => None,
    };
    if files.len() == 0 {
        return Err(PickError::Absent);
    }
    let mut best: Option<usize> = None;
    let mut count: usize = 0;
    let mut i: usize = 0;
    while i < files.len()
        invariant
            i <= files@.len(),
            count <= i,
            t == (match tag {
                Some(t) => Some(t@),
                None => None,
            }),
            count == selection(files@, i as int, t),
            (best is Some) == (count > 0),
            match best {
                Some(b) => shortest(files@, i as int, t) == Some(b as int) && b < i,
                None => shortest(files@, i as int, t) is None,
            },
        decreases files@.len() - i,
    {
        if fits(files[i].as_str(), tag) {
            count = count + 1;
            let better: bool = match best {
                None => true,
                Some(b) => files[i].as_str().as_bytes().len() < files[b].as_str().as_bytes().len(),
            };
            if better {
                best = Some(i);
            }
        }
        i = i + 1;
    }
    match best {
        None => Err(PickError::NoMatch),
        Some(b) => if tag.is_none() && count > 1 {
            Err(PickError::Ambiguous { files: count })
        } else {
            Ok(b)
        },
    }
}

/// Preference among tower files: half precision, then bfloat, then single.
pub open spec fn towers_rank(file: Seq<char>) -> int {
    let f = text::lowered(file);
    if text::has(f, "bf16"@) {
        1
    } else if text::has(f, "f16"@) {
        0
    } else if text::has(f, "f32"@) {
        2
    } else {
        3
    }
}

/// The first of the most preferred tower files.
pub open spec fn best_towers(files: Seq<String>, n: int) -> Option<int>
    decreases n,
{
    if n <= 0 {
        None
    } else {
        let b = best_towers(files, n - 1);
        if is_towers(files[n - 1]@) && (b is None || towers_rank(files[n - 1]@) < towers_rank(
            files[b->0]@,
        )) {
            Some(n - 1)
        } else {
            b
        }
    }
}

fn rank_towers(file: &str) -> (r: u8)
    ensures
        r == towers_rank(file@),
{
    let f: String = text::lower_case(file);
    if text::contains(f.as_str(), "bf16") {
        1
    } else if text::contains(f.as_str(), "f16") {
        0
    } else if text::contains(f.as_str(), "f32") {
        2
    } else {
        3
    }
}

/// The tower file to merge, if there is one.
pub fn pick_towers(files: &Vec<String>) -> (r: Option<usize>)
    ensures
        match r {
            Some(i) => best_towers(files@, files@.len() as int) == Some(i as int) && i
                < files@.len(),
            None => best_towers(files@, files@.len() as int) is None,
        },
{
    let mut best: Option<usize> = None;
    let mut i: usize = 0;
    while i < files.len()
        invariant
            i <= files@.len(),
            match best {
                Some(b) => best_towers(files@, i as int) == Some(b as int) && b < i,
                None => best_towers(files@, i as int) is None,
            },
        decreases files@.len() - i,
    {
        let f: String = text::lower_case(files[i].as_str());
        if text::contains(f.as_str(), "mmproj") {
            let better: bool = match best {
                None => true,
                Some(b) => rank_towers(files[i].as_str()) < rank_towers(files[b].as_str()),
            };
            if better {
                best = Some(i);
            }
        }
        i = i + 1;
    }
    best
}

/// A tower file is never the model, and the model never a tower file.
pub proof fn law_towers_are_no_model(files: Seq<String>, n: int, tag: Option<Seq<char>>)
    ensures
        shortest(files, n, tag) matches Some(i) ==> 0 <= i < n && selected(files[i]@, tag),
        best_towers(files, n) matches Some(i) ==> 0 <= i < n && is_towers(files[i]@),
        shortest(files, n, tag) is Some && best_towers(files, n) is Some ==> shortest(
            files,
            n,
            tag,
        ) != best_towers(files, n),
    decreases n,
{
    if n > 0 {
        law_towers_are_no_model(files, n - 1, tag);
    }
}

/// Which graph runs a GGUF architecture.
#[derive(Clone, Copy, PartialEq, Eq, Debug, Structural)]
pub enum GgufGraph {
    Gemma4,
    Standard,
    /// Not registered. `hybrid`: its metadata speaks of state-space layers.
    Unknown { hybrid: bool },
}

pub open spec fn graph_of(arch: Seq<char>, keys: Seq<String>) -> GgufGraph {
    if text::starts(arch, "gemma4"@) || text::starts(arch, "gemma3n"@) {
        GgufGraph::Gemma4
    } else if arch == "qwen2"@ || arch == "llama"@ || arch == "mistral"@ || arch == "qwen3"@ {
        GgufGraph::Standard
    } else {
        GgufGraph::Unknown {
            hybrid: exists|i: int| 0 <= i < keys.len() && text::has((#[trigger] keys[i])@, ".ssm."@),
        }
    }
}

pub fn gguf_graph(arch: &str, keys: &Vec<String>) -> (r: GgufGraph)
    ensures
        r == graph_of(arch@, keys@),
{
    if text::starts_with(arch, "gemma4") || text::starts_with(arch, "gemma3n") {
        return GgufGraph::Gemma4;
    }
    if text::same(arch, "qwen2") || text::same(arch, "llama") || text::same(arch, "mistral")
        || text::same(arch, "qwen3") {
        return GgufGraph::Standard;
    }
    let mut i: usize = 0;
    while i < keys.len()
        invariant
            i <= keys@.len(),
            graph_of(arch@, keys@) is Unknown,
            forall|k: int| 0 <= k < i ==> !text::has((#[trigger] keys@[k])@, ".ssm."@),
        decreases keys@.len() - i,
    {
        if text::contains(keys[i].as_str(), ".ssm.") {
            assert(text::has(keys@[i as int]@, ".ssm."@));
            return GgufGraph::Unknown { hybrid: true };
        }
        i = i + 1;
    }
    GgufGraph::Unknown { hybrid: false }
}

/// The tokenizer model that standard GGUF files may name; none counts as it.
pub fn standard_tokenizer(model: Option<&str>) -> (r: bool)
    ensures
        r == (model is None || model->0@ == "gpt2"@),
{
    match model {
        Some(m) => text::same(m, "gpt2"),
        None => true,
    }
}

// Metadata.

/// Rotary frequencies for a width of `dims`, within the head.
pub open spec fn freqs(dims: int, head: int) -> int {
    if dims / 2 < 1 {
        1
    } else if dims / 2 > head / 2 {
        head / 2
    } else {
        dims / 2
    }
}

/// Take the rotary recipe from the file's own metadata.
pub fn override_rope(
    t: &mut G4TextCfg,
    dims: Option<usize>,
    base: Option<u32>,
    base_sliding: Option<u32>,
    keep: bool,
)
    requires
        !keep && dims is Some ==> old(t).global_head_dim >= 2,
    ensures
        keep ==> *final(t) == *old(t),
        !keep ==> *final(t) == (G4TextCfg {
            full_nfreqs: match dims {
                Some(d) => freqs(d as int, old(t).global_head_dim as int) as usize,
                None => old(t).full_nfreqs,
            },
            theta_full: match base {
                Some(b) => b,
                None => old(t).theta_full,
            },
            theta_sliding: match base_sliding {
                Some(b) => b,
                None => old(t).theta_sliding,
            },
            use_rope_factors: true,
            ..*old(t)
        }),
{
    if keep {
        return;
    }
    match dims {
        Some(d) => {
            let n: usize = d / 2;
            let most: usize = t.global_head_dim / 2;
            t.full_nfreqs = if n < 1 {
                1
            } else if n > most {
                most
            } else {
                n
            };
        },
        None => {},
    }
    match base {
        Some(b) => {
            t.theta_full = b;
        },
        None => {},
    }
    match base_sliding {
        Some(b) => {
            t.theta_sliding = b;
        },
        None => {},
    }
    t.use_rope_factors = true;
}

/// A marker that the configuration leaves out is the token of its literal:
/// the newer one, else the classic one.
pub open spec fn marker(tk: &BpeTokenizer, id: u32, newer: Seq<char>, classic: Seq<char>) -> u32 {
    if id != 0 {
        id
    } else {
        match tk.token(newer) {
            Some(t) => t,
            None => match tk.token(classic) {
                Some(t) => t,
                None => id,
            },
        }
    }
}

fn resolve(tk: &BpeTokenizer, id: u32, newer: &str, classic: &str) -> (r: u32)
    ensures
        r == marker(tk, id, newer@, classic@),
{
    if id != 0 {
        return id;
    }
    match tk.special(newer) {
        Some(t) => t,
        None => match tk.special(classic) {
            Some(t) => t,
            None => id,
        },
    }
}

/// Complete the media markers of a configuration from the tokenizer.
pub fn resolve_markers(c: &mut G4Config, tk: &BpeTokenizer)
    ensures
        *final(c) == (G4Config {
            audio_token_id: marker(
                tk,
                old(c).audio_token_id,
                "<|audio|>"@,
                "<audio_soft_token>"@,
            ),
            boa_token_id: marker(tk, old(c).boa_token_id, "<|audio>"@, "<start_of_audio>"@),
            eoa_token_id: marker(tk, old(c).eoa_token_id, "<audio|>"@, "<end_of_audio>"@),
            image_token_id: marker(
                tk,
                old(c).image_token_id,
                "<|image|>"@,
                "<image_soft_token>"@,
            ),
            boi_token_id: marker(tk, old(c).boi_token_id, "<|image>"@, "<start_of_image>"@),
            eoi_token_id: marker(tk, old(c).eoi_token_id, "<image|>"@, "<end_of_image>"@),
            ..*old(c)
        }),
{
    c.audio_token_id = resolve(tk, c.audio_token_id, "<|audio|>", "<audio_soft_token>");
    c.boa_token_id = resolve(tk, c.boa_token_id, "<|audio>", "<start_of_audio>");
    c.eoa_token_id = resolve(tk, c.eoa_token_id, "<audio|>", "<end_of_audio>");
    c.image_token_id = resolve(tk, c.image_token_id, "<|image|>", "<image_soft_token>");
    c.boi_token_id = resolve(tk, c.boi_token_id, "<|image>", "<start_of_image>");
    c.eoi_token_id = resolve(tk, c.eoi_token_id, "<image|>", "<end_of_image>");
}

impl G4Config {
    /// The markers that frame media.
    pub fn markers(&self) -> (r: Markers)
        ensures
            r == (Markers {
                image: self.image_token_id,
                image_start: self.boi_token_id,
                image_end: self.eoi_token_id,
                audio: self.audio_token_id,
                audio_start: self.boa_token_id,
                audio_end: self.eoa_token_id,
                bidirectional: self.text.bidir_vision,
            }),
    {
        Markers {
            image: self.image_token_id,
            image_start: self.boi_token_id,
            image_end: self.eoi_token_id,
            audio: self.audio_token_id,
            audio_start: self.boa_token_id,
            audio_end: self.eoa_token_id,
            bidirectional: self.text.bidir_vision,
        }
    }
}

/// The tensor is converted on its way to the device: neither half precision
/// nor packed, and not one that stays on the host.
pub open spec fn converted(m: TensorMeta) -> bool {
    &&& m.dtype != DType::F16 && m.dtype != DType::U8
    &&& !text::ends(m.name@, "embed_tokens_per_layer.weight"@)
    &&& !text::has(m.name@, "subsample_conv_projection."@)
    &&& !bnb::aux(m.name@)
}

/// The largest conversion that the first `n` tensors stage.
pub open spec fn staged(w: &LoadedWeights, n: int) -> int
    decreases n,
{
    if n <= 0 {
        0
    } else {
        let m = w.metas@[n - 1];
        let before = staged(w, n - 1);
        let here = m.count() * forecast::elem_size(m.dtype);
        if converted(m) && here > before {
            here
        } else {
            before
        }
    }
}

/// Bytes of the largest conversion of a gemma4 checkpoint.
pub fn load_transient(w: &LoadedWeights) -> (r: usize)
    requires
        forecast::countable(w),
    ensures
        r == staged(w, w.metas@.len() as int),
{
    let mut best: usize = 0;
    let mut i: usize = 0;
    while i < w.metas.len()
        invariant
            i <= w.metas@.len(),
            forecast::countable(w),
            best == staged(w, i as int),
        decreases w.metas@.len() - i,
    {
        let m: &TensorMeta = &w.metas[i];
        assert(*m == w.metas@[i as int]);
        let name: &str = m.name.as_str();
        let plain: bool = match m.dtype {
            DType::F16 | DType::U8 => false,
            _ => true,
        };
        if plain && !text::ends_with(name, "embed_tokens_per_layer.weight") && !text::contains(
            name,
            "subsample_conv_projection.",
        ) && !bnb::is_aux(name) {
            let n: usize = m.numel();
            let e: usize = forecast::elem_bytes(m.dtype);
            assert(0 <= n * e <= 4 * n) by (nonlinear_arith)
                requires
                    0 <= e <= 4,
                    0 <= n,
            ;
            let here: usize = n * e;
            if here > best {
                best = here;
            }
        }
        i = i + 1;
    }
    best
}

/// The tokenizer arrays of a GGUF file. An item that is not of its kind is
/// `None`.
pub struct GgufTokens {
    pub tokens: Option<Vec<Option<String>>>,
    pub merges: Option<Vec<Option<String>>>,
    pub types: Option<Vec<Option<u64>>>,
    pub scores: Option<Vec<Option<u32>>>,
    pub bos: Option<usize>,
    pub eos: Option<usize>,
    pub add_bos: Option<bool>,
}

/// The items, an empty text for each that is none.
pub open spec fn texts_of(v: Seq<Option<String>>) -> Seq<Seq<char>> {
    Seq::new(
        v.len(),
        |i: int|
            match v[i] {
                Some(s) => s@,
                None => Seq::empty(),
            },
    )
}

pub open spec fn texts_or_none(v: Option<Vec<Option<String>>>) -> Seq<Seq<char>> {
    match v {
        Some(v) => texts_of(v@),
        None => Seq::empty(),
    }
}

/// The token types; what is no number counts as a normal token.
pub open spec fn types_of(v: Option<Vec<Option<u64>>>) -> Seq<i64> {
    match v {
        Some(v) => Seq::new(
            v@.len(),
            |i: int|
                match v@[i] {
                    Some(t) => t as i64,
                    None => 1i64,
                },
        ),
        None => Seq::empty(),
    }
}

/// The scores; what is no number counts as zero.
pub open spec fn scores_of(v: Option<Vec<Option<u32>>>) -> Seq<u32> {
    match v {
        Some(v) => Seq::new(
            v@.len(),
            |i: int|
                match v@[i] {
                    Some(s) => s,
                    None => 0u32,
                },
        ),
        None => Seq::empty(),
    }
}

fn plain_texts(v: &Vec<Option<String>>) -> (r: Vec<String>)
    ensures
        merge::texts(r@) == texts_of(v@),
{
    let mut r: Vec<String> = Vec::new();
    let mut i: usize = 0;
    while i < v.len()
        invariant
            i <= v@.len(),
            r@.len() == i,
            merge::texts(r@) =~= texts_of(v@).take(i as int),
        decreases v@.len() - i,
    {
        let ghost before = merge::texts(r@);
        let s: String = match &v[i] {
            Some(s) => s.clone(),
            None => String::new(),
        };
        r.push(s);
        assert forall|k: int| 0 <= k < i + 1 implies #[trigger] merge::texts(r@)[k] == texts_of(
            v@,
        ).take(i + 1)[k] by {
            if k < i {
                assert(before[k] == texts_of(v@).take(i as int)[k]);
                assert(r@[k]@ == before[k]);
            }
        }
        i = i + 1;
    }
    assert(merge::texts(r@) =~= texts_of(v@));
    r
}

/// A tokenizer from GGUF metadata, or `None` where the tokens are missing.
/// What else is missing counts as empty; unknown types as normal tokens,
/// unknown scores as zero.
pub fn tokenizer_from_gguf_meta(w: &GgufTokens, add_bos_default: bool) -> (r: Option<BpeTokenizer>)
    requires
        w.tokens matches Some(t) ==> t@.len() <= u32::MAX,
    ensures
        (r is Some) == (w.tokens is Some),
        r matches Some(tk) ==> tk.wf() && gguf::made(
            tk,
            texts_of(w.tokens->0@),
            texts_or_none(w.merges),
            types_of(w.types),
            match w.bos {
                Some(b) => Some(b as u32),
                None => None,
            },
            match w.eos {
                Some(e) => seq![e as u32],
                None => Seq::empty(),
            },
            match w.add_bos {
                Some(b) => b,
                None => add_bos_default,
            },
            scores_of(w.scores),
        ),
{
    let tokens: Vec<String> = match &w.tokens {
        None => return None,
        Some(t) => plain_texts(t),
    };
    let merges: Vec<String> = match &w.merges {
        None => Vec::new(),
        Some(m) => plain_texts(m),
    };
    let mut types: Vec<i64> = Vec::new();
    match &w.types {
        None => {},
        Some(v) => {
            let mut i: usize = 0;
            while i < v.len()
                invariant
                    i <= v@.len(),
                    w.types == Some(*v),
                    types@ =~= types_of(w.types).take(i as int),
                decreases v@.len() - i,
            {
                types.push(match v[i] {
                    Some(t) => t as i64,
                    None => 1,
                });
                i = i + 1;
            }
        },
    }
    let mut scores: Vec<u32> = Vec::new();
    match &w.scores {
        None => {},
        Some(v) => {
            let mut i: usize = 0;
            while i < v.len()
                invariant
                    i <= v@.len(),
                    w.scores == Some(*v),
                    scores@ =~= scores_of(w.scores).take(i as int),
                decreases v@.len() - i,
            {
                scores.push(match v[i] {
                    Some(s) => s,
                    None => 0,
                });
                i = i + 1;
            }
        },
    }
    assert(types@ =~= types_of(w.types));
    assert(scores@ =~= scores_of(w.scores));
    assert(merge::texts(merges@) =~= texts_or_none(w.merges));
    assert(merge::texts(tokens@).len() == tokens@.len());
    let bos: Option<u32> = match w.bos {
        Some(b) => Some(b as u32),
        None => None,
    };
    let mut eos: Vec<u32> = Vec::new();
    match w.eos {
        Some(e) => {
            eos.push(e as u32);
        },
        None => {},
    }
    assert(eos@ =~= (match w.eos {
        Some(e) => seq![e as u32],
        None => Seq::empty(),
    }));
    let add_bos: bool = match w.add_bos {
        Some(b) => b,
        None => add_bos_default,
    };
    Some(BpeTokenizer::from_gguf(&tokens, &merges, &types, bos, eos, add_bos, scores))
}

} // verus!
