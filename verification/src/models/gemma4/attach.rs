//! The towers of a checkpoint. One that cannot be built is left out; the text
//! model goes on without it.
use vstd::prelude::*;

use crate::models::gemma4::audio;
use crate::models::gemma4::audio::G4Audio;
use crate::models::gemma4::config::G4Config;
use crate::models::gemma4::graph::Gemma4;
use crate::models::gemma4::index;
use crate::models::gemma4::index::G4Index;
use crate::models::gemma4::tower;
use crate::models::gemma4::tower::TowerError;
use crate::models::gemma4::vision;
use crate::models::gemma4::vision::G4Vision;

verus! {

/// The towers that were built, and what stopped those that were not.
pub struct Towers {
    pub vision: Option<G4Vision>,
    pub audio: Option<G4Audio>,
    pub vision_fault: Option<(usize, TowerError)>,
    pub audio_fault: Option<(usize, TowerError)>,
}

/// What stops the vision tower of a configuration that has one.
pub open spec fn vision_stop(c: G4Config, ix: &G4Index) -> Option<(usize, TowerError)> {
    let ss = vision::all_places(c.vision->0, c.text.hidden, vision::standardizes(ix.weights));
    tower::first_fault(ix.weights, ix.norm_shift, ss, ss.len() as int)
}

pub open spec fn audio_stop(c: G4Config, ix: &G4Index) -> Option<(usize, TowerError)> {
    let ss = audio::all_places(c.audio->0, c.text.hidden);
    tower::first_fault(ix.weights, ix.norm_shift, ss, ss.len() as int)
}

impl Gemma4 {
    /// Builds the towers that the checkpoint carries. The model serves those
    /// that could be built; nothing else about it changes.
    pub fn attach_towers(&mut self, ix: &G4Index) -> (r: Towers)
        requires
            ix.weights.wf(),
            index::sized(ix.weights),
            index::sound_states(ix.weights),
            old(self).vision ==> old(self).cfg.vision is Some,
            old(self).audio ==> old(self).cfg.audio is Some,
            old(self).cfg.vision matches Some(v) ==> vision::sized(
                v,
                old(self).cfg.text.hidden as int,
            ),
            old(self).cfg.audio matches Some(a) ==> audio::sized(
                a,
                old(self).cfg.text.hidden as int,
            ),
        ensures
            *final(self) == (Gemma4 {
                vision: r.vision is Some,
                audio: r.audio is Some,
                ..*old(self)
            }),
            r.vision_fault == (if old(self).vision {
                vision_stop(old(self).cfg, ix)
            } else {
                None
            }),
            r.audio_fault == (if old(self).audio {
                audio_stop(old(self).cfg, ix)
            } else {
                None
            }),
            (r.vision is Some) == (old(self).vision && r.vision_fault is None),
            (r.audio is Some) == (old(self).audio && r.audio_fault is None),
            r.vision matches Some(v) ==> {
                let c = old(self).cfg;
                let std = vision::standardizes(ix.weights);
                let ss = vision::all_places(c.vision->0, c.text.hidden, std);
                &&& v.cfg == c.vision->0
                &&& v.lm_hidden == c.text.hidden
                &&& v.standardized == std
                &&& tower::views(v.places@) == ss
                &&& tower::entries_are(v.entries@, ix.weights, ss)
                &&& vision::is_ws(v.ws, v.cfg, v.lm_hidden as int)
            },
            r.audio matches Some(a) ==> {
                let c = old(self).cfg;
                let ss = audio::all_places(c.audio->0, c.text.hidden);
                &&& a.cfg == c.audio->0
                &&& a.lm_hidden == c.text.hidden
                &&& tower::views(a.places@) == ss
                &&& tower::entries_are(a.entries@, ix.weights, ss)
                &&& audio::is_ws(a.ws, a.cfg, a.lm_hidden as int)
            },
    {
        let mut out: Towers = Towers {
            vision: None,
            audio: None,
            vision_fault: None,
            audio_fault: None,
        };
        let hidden: usize = self.cfg.text.hidden;
        if self.vision {
            if let Some(c) = &self.cfg.vision {
                match G4Vision::build(*c, ix, hidden) {
                    Ok(v) => {
                        out.vision = Some(v);
                    },
                    Err(e) => {
                        out.vision_fault = Some(e);
                    },
                }
            }
        }
        if self.audio {
            if let Some(c) = &self.cfg.audio {
                match G4Audio::build(*c, ix, hidden) {
                    Ok(a) => {
                        out.audio = Some(a);
                    },
                    Err(e) => {
                        out.audio_fault = Some(e);
                    },
                }
            }
        }
        self.vision = out.vision.is_some();
        self.audio = out.audio.is_some();
        out
    }
}

} // verus!
