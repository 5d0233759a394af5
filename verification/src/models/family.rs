//! What the two families of graphs can do.
use vstd::prelude::*;

use crate::models::gemma4::graph::Gemma4;
use crate::models::transformer::config::Modality;
use crate::models::transformer::graph::Transformer;

verus! {

/// A family of graphs.
#[derive(Clone, Copy, PartialEq, Eq, Debug, Structural)]
pub enum Arch {
    /// The shared decoder.
    Std,
    /// The pipeline with per-layer inputs.
    Gemma4,
}

/// What a model serves.
#[derive(Clone, Copy, PartialEq, Eq, Debug, Structural)]
pub enum Capability {
    Generate,
    Embed,
    Vision,
    Audio,
}

/// What a model of a family serves. Embedding checkpoints do not generate;
/// every other model serves pooled embeddings too.
pub open spec fn capabilities_of(a: Arch, embedding: bool, vision: bool, audio: bool) -> Seq<
    Capability,
> {
    (if a == Arch::Std && embedding {
        seq![Capability::Embed]
    } else {
        seq![Capability::Generate, Capability::Embed]
    }) + (if vision {
        seq![Capability::Vision]
    } else {
        Seq::empty()
    }) + (if audio {
        seq![Capability::Audio]
    } else {
        Seq::empty()
    })
}

impl Arch {
    pub fn capabilities(&self, embedding: bool, vision: bool, audio: bool) -> (r: Vec<Capability>)
        ensures
            r@ == capabilities_of(*self, embedding, vision, audio),
    {
        let mut r: Vec<Capability> = Vec::new();
        let only_embeds: bool = match *self {
            Arch::Std => embedding,
            Arch::Gemma4 => false,
        };
        if !only_embeds {
            r.push(Capability::Generate);
        }
        r.push(Capability::Embed);
        if vision {
            r.push(Capability::Vision);
        }
        if audio {
            r.push(Capability::Audio);
        }
        assert(r@ =~= capabilities_of(*self, embedding, vision, audio));
        r
    }

    /// The device can feed its own tokens: only without a table on the host.
    pub fn supports_device_pipeline(&self) -> (r: bool)
        ensures
            r == (*self == Arch::Std),
    {
        match *self {
            Arch::Std => true,
            Arch::Gemma4 => false,
        }
    }

    /// A reset keeps the rows of the last session usable.
    pub fn keeps_rows(&self) -> (r: bool)
        ensures
            r == (*self == Arch::Std),
    {
        match *self {
            Arch::Std => true,
            Arch::Gemma4 => false,
        }
    }
}

/// The modality of the pipeline with per-layer inputs.
pub fn gemma4_modality(vision: bool, audio: bool) -> (r: Modality)
    ensures
        r == (if vision {
            Modality::VisionText
        } else if audio {
            Modality::AudioText
        } else {
            Modality::TextToText
        }),
{
    if vision {
        Modality::VisionText
    } else if audio {
        Modality::AudioText
    } else {
        Modality::TextToText
    }
}

/// What a family does to be fast.
#[derive(Clone, Copy, PartialEq, Eq, Debug, Structural)]
pub struct PerfLevers {
    /// Greedy tokens are picked on the device.
    pub device_greedy: bool,
    /// Decode steps are captured and replayed.
    pub cuda_graph: bool,
    /// Projections run row-concatenated.
    pub fused_weights: bool,
    /// Attention of one row is split over the sequence.
    pub seq_parallel_attention: bool,
    /// The device feeds its own tokens.
    pub device_pipeline: bool,
}

impl Gemma4 {
    /// Mixed encodings are not fused, and the per-layer inputs keep the token
    /// on the host.
    pub fn perf_levers(&self) -> (r: PerfLevers)
        ensures
            r == (PerfLevers {
                device_greedy: true,
                cuda_graph: true,
                fused_weights: false,
                seq_parallel_attention: true,
                device_pipeline: false,
            }),
    {
        PerfLevers {
            device_greedy: true,
            cuda_graph: true,
            fused_weights: false,
            seq_parallel_attention: true,
            device_pipeline: false,
        }
    }

    pub fn modality(&self) -> (r: Modality)
        ensures
            r == (if self.vision {
                Modality::VisionText
            } else if self.audio {
                Modality::AudioText
            } else {
                Modality::TextToText
            }),
    {
        gemma4_modality(self.vision, self.audio)
    }
}

impl Transformer {
    pub fn perf_levers(&self) -> (r: PerfLevers)
        ensures
            r == (PerfLevers {
                device_greedy: true,
                cuda_graph: true,
                fused_weights: true,
                seq_parallel_attention: self.cfg.head_dim % 32 == 0 && self.cfg.head_dim <= 128,
                device_pipeline: true,
            }),
    {
        PerfLevers {
            device_greedy: true,
            cuda_graph: true,
            fused_weights: true,
            seq_parallel_attention: self.cfg.head_dim % 32 == 0 && self.cfg.head_dim <= 128,
            device_pipeline: true,
        }
    }
}

} // verus!
