use crate::template::{template_chunks, template_to_chunks, Chunk, ChunkView};
use vstd::prelude::*;
use vstd::string::*;

verus! {

/// A piece of a spoken message: text to synthesize, or a named sound clip.
#[derive(Clone, Debug, PartialEq, Eq)]
pub enum AudioPart {
    Speech(String),
    Clip(String),
}

pub enum AudioPartView {
    Speech(Seq<char>),
    Clip(Seq<char>),
}

impl View for AudioPart {
    type V = AudioPartView;

    open spec fn view(&self) -> AudioPartView {
        match self {
            AudioPart::Speech(s) => AudioPartView::Speech(s@),
            AudioPart::Clip(s) => AudioPartView::Clip(s@),
        }
    }
}

/// The value of variable `name`: the first entry with that name.
pub open spec fn var_value(vars: Seq<(Seq<char>, Seq<char>)>, name: Seq<char>) -> Option<Seq<char>>
    decreases vars.len(),
{
    if vars.len() == 0 {
        None
    } else if vars[0].0 == name {
        Some(vars[0].1)
    } else {
        var_value(vars.drop_first(), name)
    }
}

/// Speech for the pending text, if there is any.
pub open spec fn flush(buf: Seq<char>) -> Seq<AudioPartView> {
    if buf.len() > 0 {
        seq![AudioPartView::Speech(buf)]
    } else {
        seq![]
    }
}

/// The parts spoken for `chunks`, with `buf` the text not yet spoken. Text and known
/// variables are spoken together; a clip interrupts the speech; a name that is neither a
/// variable nor a clip is left out.
pub open spec fn audio_plan(
    chunks: Seq<ChunkView>,
    vars: Seq<(Seq<char>, Seq<char>)>,
    clips: Seq<Seq<char>>,
    buf: Seq<char>,
) -> Seq<AudioPartView>
    decreases chunks.len(),
{
    if chunks.len() == 0 {
        flush(buf)
    } else {
        let rest = chunks.drop_first();
        match chunks[0] {
            ChunkView::Text(t) => audio_plan(rest, vars, clips, buf + t),
            ChunkView::Variable(v) => match var_value(vars, v) {
                Some(x) => audio_plan(rest, vars, clips, buf + x),
                None => if clips.contains(v) {
                    flush(buf) + seq![AudioPartView::Clip(v)] + audio_plan(rest, vars, clips, Seq::empty())
                } else {
                    audio_plan(rest, vars, clips, buf)
                },
            },
        }
    }
}

pub open spec fn vars_view(vars: Seq<(String, String)>) -> Seq<(Seq<char>, Seq<char>)> {
    vars.map_values(|p: (String, String)| (p.0@, p.1@))
}

pub open spec fn clips_view(clips: Seq<String>) -> Seq<Seq<char>> {
    clips.map_values(|c: String| c@)
}

fn find_var<'a>(vars: &'a Vec<(String, String)>, name: &String) -> (r: Option<&'a String>)
    ensures
        match r {
            Some(x) => var_value(vars_view(vars@), name@) == Some(x@),
            None => var_value(vars_view(vars@), name@) is None,
        },
{
    let ghost vv = vars_view(vars@);
    let mut i: usize = 0;
    assert(vv.subrange(0, vv.len() as int) =~= vv);
    while i < vars.len()
        invariant
            0 <= i <= vars@.len(),
            vv == vars_view(vars@),
            var_value(vv, name@) == var_value(vv.subrange(i as int, vv.len() as int), name@),
        decreases vars@.len() - i,
    {
        let ghost suffix = vv.subrange(i as int, vv.len() as int);
        assert(suffix.drop_first() =~= vv.subrange(i + 1, vv.len() as int));
        assert(suffix[0] == (vars@[i as int].0@, vars@[i as int].1@));
        if vars[i].0 == *name {
            return Some(&vars[i].1);
        }
        i += 1;
    }
    assert(vv.subrange(i as int, vv.len() as int) =~= Seq::<(Seq<char>, Seq<char>)>::empty());
    None
}

fn has_clip(clips: &Vec<String>, name: &String) -> (r: bool)
    ensures
        r == clips_view(clips@).contains(name@),
{
    let ghost cv = clips_view(clips@);
    let mut i: usize = 0;
    while i < clips.len()
        invariant
            0 <= i <= clips@.len(),
            cv == clips_view(clips@),
            forall|k: int| 0 <= k < i ==> cv[k] != name@,
        decreases clips@.len() - i,
    {
        if clips[i] == *name {
            assert(cv[i as int] == name@);
            return true;
        }
        i += 1;
    }
    false
}

/// The parts to speak for a message template: `vars` gives the values of variables,
/// `clips` the names of the sound clips.
pub fn plan_audio(template: &str, vars: &Vec<(String, String)>, clips: &Vec<String>) -> (r: Vec<AudioPart>)
    ensures
        r@.map_values(|p: AudioPart| p@) == audio_plan(
            template_chunks(template@),
            vars_view(vars@),
            clips_view(clips@),
            Seq::empty(),
        ),
{
    let chunks = template_to_chunks(template);
    let ghost cs = chunks@.map_values(|c: Chunk| c@);
    let ghost vv = vars_view(vars@);
    let ghost cv = clips_view(clips@);
    let mut parts: Vec<AudioPart> = Vec::new();
    let mut buf = String::new();
    let mut i: usize = 0;
    proof {
        assert(cs.subrange(0, cs.len() as int) =~= cs);
        assert(parts@.map_values(|p: AudioPart| p@) =~= Seq::<AudioPartView>::empty());
        assert(Seq::<AudioPartView>::empty() + audio_plan(cs, vv, cv, Seq::empty()) =~= audio_plan(
            cs,
            vv,
            cv,
            Seq::empty(),
        ));
        assert(buf@ =~= Seq::<char>::empty());
    }
    while i < chunks.len()
        invariant
            0 <= i <= chunks@.len(),
            cs == chunks@.map_values(|c: Chunk| c@),
            cs == template_chunks(template@),
            vv == vars_view(vars@),
            cv == clips_view(clips@),
            parts@.map_values(|p: AudioPart| p@) + audio_plan(
                cs.subrange(i as int, cs.len() as int),
                vv,
                cv,
                buf@,
            ) == audio_plan(cs, vv, cv, Seq::empty()),
        decreases chunks@.len() - i,
    {
        let ghost rest = cs.subrange(i + 1, cs.len() as int);
        let ghost before = parts@.map_values(|p: AudioPart| p@);
        let ghost buf0 = buf@;
        proof {
            assert(cs.subrange(i as int, cs.len() as int).drop_first() =~= rest);
            assert(cs.subrange(i as int, cs.len() as int)[0] == chunks@[i as int]@);
        }
        match &chunks[i] {
            Chunk::Text(t) => {
                buf.append(t.as_str());
            },
            Chunk::Variable(v) => {
                match find_var(vars, v) {
                    Some(x) => {
                        buf.append(x.as_str());
                    },
                    None => {
                        if has_clip(clips, v) {
                            if buf.unicode_len() > 0 {
                                parts.push(AudioPart::Speech(buf.clone()));
                            }
                            parts.push(AudioPart::Clip(v.clone()));
                            buf = String::new();
                            proof {
                                assert(parts@.map_values(|p: AudioPart| p@) =~= before + flush(buf0)
                                    + seq![AudioPartView::Clip(v@)]);
                                assert(buf@ =~= Seq::<char>::empty());
                            }
                        }
                    },
                }
            },
        }
        i += 1;
    }
    if buf.unicode_len() > 0 {
        let ghost before = parts@.map_values(|p: AudioPart| p@);
        parts.push(AudioPart::Speech(buf));
        assert(parts@.map_values(|p: AudioPart| p@) =~= before + flush(buf@));
    }
    proof {
        assert(cs.subrange(cs.len() as int, cs.len() as int) =~= Seq::<ChunkView>::empty());
        assert(parts@.map_values(|p: AudioPart| p@) + Seq::<AudioPartView>::empty() =~= parts@.map_values(
            |p: AudioPart| p@,
        ));
    }
    parts
}

} // verus!
