//! Audio cues: the sounds of audio-bearing objects, resolved against the
//! asset store, ready for an audio backend.
use crate::graph::SceneObject;
use crate::num::{q_int, Dec, Q};
use crate::path::{ext_dot, ext_dot_exec, extension};
use crate::text::{chars_eq, chars_of};
use crate::vector::amount_spec;
use vstd::prelude::*;
use vstd::string::*;

verus! {

/// A file of the asset store kept as bytes.
#[derive(Clone, Debug)]
pub struct BlobAsset {
    pub path: String,
    pub bytes: Vec<u8>,
}

/// How a sound is played.
#[derive(Clone, Copy, Debug, PartialEq, Eq, Structural)]
pub enum PlaybackMode {
    /// Repeats forever.
    Loop,
    /// Plays once.
    Others,
}

/// An audio-bearing object: its sound files and how they play.
#[derive(Clone, Debug)]
pub struct AudioObject {
    pub sounds: Vec<String>,
    pub playback_mode: PlaybackMode,
}

/// One sound to play.
#[derive(Clone, Debug)]
pub struct AudioCue {
    pub object_id: i64,
    /// Index of the sound's bytes in the blob list.
    pub blob: usize,
    /// The sound file's extension, telling its format.
    pub format_hint: String,
    pub playback_mode: PlaybackMode,
    pub volume: Dec,
}

pub open spec fn mode_of(looping: bool) -> PlaybackMode {
    if looping {
        PlaybackMode::Loop
    } else {
        PlaybackMode::Others
    }
}

pub struct CueQ {
    pub object_id: i64,
    pub blob: int,
    pub format_hint: Seq<char>,
    pub looping: bool,
    pub volume: Q,
}

pub open spec fn cue_view(c: AudioCue) -> CueQ {
    CueQ {
        object_id: c.object_id,
        blob: c.blob as int,
        format_hint: c.format_hint@,
        looping: c.playback_mode == PlaybackMode::Loop,
        volume: c.volume@,
    }
}

/// An object with sounds and no image.
pub open spec fn is_audio(o: SceneObject) -> bool {
    o.image is None && o.sound@.len() > 0
}

/// The first blob from `i` on with path `p`.
pub open spec fn find_blob(bs: Seq<BlobAsset>, p: Seq<char>, i: int) -> Option<int>
    decreases bs.len() - i,
{
    if i < 0 || i >= bs.len() {
        None
    } else if bs[i].path@ == p {
        Some(i)
    } else {
        find_blob(bs, p, i + 1)
    }
}

/// A sound loops unless its playback mode is set to something other than
/// `loop`.
pub open spec fn loops(o: SceneObject) -> bool {
    match o.playback_mode {
        None => true,
        Some(m) => m@ == seq!['l', 'o', 'o', 'p'],
    }
}

pub open spec fn hint_of(p: Seq<char>) -> Seq<char> {
    match extension(p) {
        Some(e) => e,
        None => seq![],
    }
}

/// The cues of the first `n` sounds of `o`; a sound without blob has none.
pub open spec fn sound_cues(o: SceneObject, bs: Seq<BlobAsset>, n: int) -> Seq<CueQ>
    decreases n,
{
    if n <= 0 {
        seq![]
    } else {
        let before = sound_cues(o, bs, n - 1);
        let s = o.sound@[n - 1]@;
        match find_blob(bs, s, 0) {
            None => before,
            Some(b) => before.push(
                CueQ {
                    object_id: o.id,
                    blob: b,
                    format_hint: hint_of(s),
                    looping: loops(o),
                    volume: amount_spec(o.volume, q_int(1)),
                },
            ),
        }
    }
}

/// The cues of the audio-bearing objects among the first `n`, in order.
pub open spec fn cues(objs: Seq<SceneObject>, bs: Seq<BlobAsset>, n: int) -> Seq<CueQ>
    decreases n,
{
    if n <= 0 {
        seq![]
    } else {
        let o = objs[n - 1];
        if is_audio(o) {
            cues(objs, bs, n - 1) + sound_cues(o, bs, o.sound@.len() as int)
        } else {
            cues(objs, bs, n - 1)
        }
    }
}

fn lookup_blob(bs: &Vec<BlobAsset>, p: &Vec<char>) -> (r: Option<usize>)
    ensures
        match r {
            Some(k) => find_blob(bs@, p@, 0) == Some(k as int),
            None => find_blob(bs@, p@, 0) is None,
        },
{
    let mut i: usize = 0;
    while i < bs.len()
        invariant
            i <= bs@.len(),
            find_blob(bs@, p@, 0) == find_blob(bs@, p@, i as int),
        decreases bs.len() - i,
    {
        let path = chars_of(bs[i].path.as_str());
        if chars_eq(&path, p) {
            return Some(i);
        }
        i = i + 1;
    }
    None
}

/// The format hint of the sound at `s`: its extension, or nothing.
fn format_hint(s: &String) -> (r: String)
    ensures
        r@ == hint_of(s@),
{
    let cs = chars_of(s.as_str());
    match ext_dot_exec(&cs) {
        None => String::new(),
        Some(d) => {
            assert(d < cs.len());
            let e = s.as_str().substring_char(d + 1, cs.len());
            assert(e@ =~= s@.skip(d + 1));
            e.to_owned()
        },
    }
}

fn mode_loops(o: &SceneObject) -> (r: bool)
    ensures
        r == loops(*o),
{
    match &o.playback_mode {
        None => true,
        Some(m) => {
            let lp = vec!['l', 'o', 'o', 'p'];
            assert(lp@ =~= seq!['l', 'o', 'o', 'p']);
            chars_eq(&chars_of(m.as_str()), &lp)
        },
    }
}

/// The audio cues of the scene: for each audio-bearing object in order, one
/// cue per sound whose file the store holds, in the order of its sounds.
pub fn audio_cues(objs: &Vec<SceneObject>, bs: &Vec<BlobAsset>) -> (r: Vec<AudioCue>)
    ensures
        r@.len() == cues(objs@, bs@, objs@.len() as int).len(),
        forall|k: int|
            0 <= k < r@.len() ==> cue_view(#[trigger] r@[k]) == cues(objs@, bs@, objs@.len() as int)[k],
{
    let mut r: Vec<AudioCue> = Vec::new();
    let mut i: usize = 0;
    while i < objs.len()
        invariant
            i <= objs@.len(),
            r@.len() == cues(objs@, bs@, i as int).len(),
            forall|k: int| 0 <= k < r@.len() ==> cue_view(#[trigger] r@[k]) == cues(objs@, bs@, i as int)[k],
        decreases objs.len() - i,
    {
        let o = &objs[i];
        if o.image.is_none() && o.sound.len() > 0 {
            let looping = mode_loops(o);
            let volume = o.volume.resolve(Dec::one());
            let ghost base = r@;
            let ghost prior = cues(objs@, bs@, i as int);
            let mut j: usize = 0;
            while j < o.sound.len()
                invariant
                    i < objs@.len(),
                    o == objs@[i as int],
                    j <= o.sound@.len(),
                    looping == loops(*o),
                    volume@ == amount_spec(o.volume, q_int(1)),
                    base.len() == prior.len(),
                    forall|k: int| 0 <= k < base.len() ==> cue_view(#[trigger] base[k]) == prior[k],
                    r@.len() == base.len() + sound_cues(*o, bs@, j as int).len(),
                    forall|k: int| 0 <= k < base.len() ==> r@[k] == base[k],
                    forall|k: int|
                        0 <= k < sound_cues(*o, bs@, j as int).len() ==> cue_view(
                            #[trigger] r@[base.len() + k],
                        ) == sound_cues(*o, bs@, j as int)[k],
                decreases o.sound.len() - j,
            {
                let s = &o.sound[j];
                let sc = chars_of(s.as_str());
                match lookup_blob(bs, &sc) {
                    None => {},
                    Some(b) => {
                        let hint = format_hint(s);
                        let playback_mode = if looping {
                            PlaybackMode::Loop
                        } else {
                            PlaybackMode::Others
                        };
                        r.push(AudioCue { object_id: o.id, blob: b, format_hint: hint, playback_mode, volume });
                        proof {
                            let sq = sound_cues(*o, bs@, j as int + 1);
                            assert(cue_view(r@[(base.len() + sound_cues(*o, bs@, j as int).len()) as int]) == sq.last());
                        }
                    },
                }
                j = j + 1;
                proof {
                    let sq = sound_cues(*o, bs@, j as int);
                    assert forall|k: int| 0 <= k < sq.len() implies cue_view(#[trigger] r@[base.len() + k]) == sq[k] by {
                        if k < sound_cues(*o, bs@, j - 1).len() {
                            assert(sq[k] == sound_cues(*o, bs@, j - 1)[k]);
                        }
                    }
                }
            }
            proof {
                let all = cues(objs@, bs@, i as int + 1);
                let sq = sound_cues(*o, bs@, o.sound@.len() as int);
                assert(all == prior + sq);
                assert forall|k: int| 0 <= k < r@.len() implies cue_view(#[trigger] r@[k]) == all[k] by {
                    if k < base.len() {
                        assert(r@[k] == base[k]);
                    } else {
                        assert(r@[base.len() + (k - base.len())] == r@[k]);
                    }
                }
            }
        }
        i = i + 1;
    }
    r
}

/// The audio side of object `o`: its sounds and playback mode, where it is
/// audio-bearing (sounds and no image).
pub fn audio_object(o: &SceneObject) -> (r: Option<AudioObject>)
    ensures
        r is Some <==> is_audio(*o),
        r matches Some(a) ==> a.playback_mode == mode_of(loops(*o)) && a.sounds@.len()
            == o.sound@.len() && forall|k: int|
            0 <= k < a.sounds@.len() ==> (#[trigger] a.sounds@[k])@ == o.sound@[k]@,
{
    if o.image.is_some() || o.sound.len() == 0 {
        return None;
    }
    let mut sounds: Vec<String> = Vec::new();
    let mut k: usize = 0;
    while k < o.sound.len()
        invariant
            k <= o.sound@.len(),
            sounds@.len() == k,
            forall|m: int| 0 <= m < k ==> (#[trigger] sounds@[m])@ == o.sound@[m]@,
        decreases o.sound.len() - k,
    {
        sounds.push(o.sound[k].clone());
        k = k + 1;
    }
    let playback_mode = if mode_loops(o) {
        PlaybackMode::Loop
    } else {
        PlaybackMode::Others
    };
    Some(AudioObject { sounds, playback_mode })
}

} // verus!
