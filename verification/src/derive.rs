//! Operations that make a new track from one you already have: how the new
//! track is titled, which engine task runs it, and which need the detailed
//! (SFT) diffusion model.
//!
//! The numeric settings of an operation (cover strength, the repainted span,
//! how far to extend) travel beside it in the application; nothing decided
//! here depends on them.

use vstd::prelude::*;
use crate::text::{append_chars, chars_eq, chars_of, string_of};

verus! {

/// The stems the model can isolate: engine id, then the name shown.
pub open spec fn stem_table() -> Seq<(Seq<char>, Seq<char>)> {
    seq![
        ("vocals"@, "Vocals"@),
        ("backing_vocals"@, "Backing vocals"@),
        ("drums"@, "Drums"@),
        ("bass"@, "Bass"@),
        ("guitar"@, "Guitar"@),
        ("keyboard"@, "Keyboard"@),
        ("percussion"@, "Percussion"@),
        ("strings"@, "Strings"@),
        ("synth"@, "Synth"@),
        ("brass"@, "Brass"@),
        ("woodwinds"@, "Woodwinds"@),
        ("fx"@, "Effects"@),
    ]
}

/// The stem table, engine id then display name.
pub fn stems() -> (v: Vec<(&'static str, &'static str)>)
    ensures
        v@.map_values(|p: (&'static str, &'static str)| (p.0@, p.1@)) == stem_table(),
{
    let mut v: Vec<(&'static str, &'static str)> = Vec::new();
    v.push(("vocals", "Vocals"));
    v.push(("backing_vocals", "Backing vocals"));
    v.push(("drums", "Drums"));
    v.push(("bass", "Bass"));
    v.push(("guitar", "Guitar"));
    v.push(("keyboard", "Keyboard"));
    v.push(("percussion", "Percussion"));
    v.push(("strings", "Strings"));
    v.push(("synth", "Synth"));
    v.push(("brass", "Brass"));
    v.push(("woodwinds", "Woodwinds"));
    v.push(("fx", "Effects"));
    assert(v@.map_values(|p: (&'static str, &'static str)| (p.0@, p.1@)) =~= stem_table());
    v
}

/// The display name of the stem `track` among `table`; the id itself when it
/// names no stem there.
pub open spec fn stem_name_in(table: Seq<(Seq<char>, Seq<char>)>, track: Seq<char>) -> Seq<char>
    decreases table.len(),
{
    if table.len() == 0 {
        track
    } else if table[0].0 == track {
        table[0].1
    } else {
        stem_name_in(table.skip(1), track)
    }
}

/// The display name of the stem `track`, or `track` itself.
pub open spec fn stem_name(track: Seq<char>) -> Seq<char> {
    stem_name_in(stem_table(), track)
}

fn pretty_stem(track: &Vec<char>) -> (r: Vec<char>)
    ensures
        r@ == stem_name(track@),
{
    let table = stems();
    let ghost t = stem_table();
    let mut i: usize = 0;
    assert(t.skip(0) =~= t);
    while i < table.len()
        invariant
            i <= table@.len(),
            table@.map_values(|p: (&'static str, &'static str)| (p.0@, p.1@)) == t,
            t == stem_table(),
            stem_name_in(t.skip(i as int), track@) == stem_name(track@),
        decreases table.len() - i,
    {
        let (id, name) = table[i];
        assert(t.skip(i as int)[0] == (id@, name@));
        let idv = chars_of(id);
        if chars_eq(&idv, track) {
            return chars_of(name);
        }
        assert(t.skip(i as int).skip(1) =~= t.skip(i + 1));
        i += 1;
    }
    assert(t.skip(i as int).len() == 0);
    let mut r: Vec<char> = Vec::new();
    append_chars(&mut r, track);
    assert(r@ =~= track@);
    r
}

/// One choice offered by the stem picker.
pub struct StemChoice {
    pub id: String,
    pub name: String,
}

/// Every stem, in the order the picker lists them.
pub fn stem_choices() -> (v: Vec<StemChoice>)
    ensures
        v@.len() == stem_table().len(),
        forall|i: int|
            0 <= i < v@.len() ==> (#[trigger] v@[i]).id@ == stem_table()[i].0 && v@[i].name@
                == stem_table()[i].1,
{
    let table = stems();
    let ghost t = stem_table();
    let mut v: Vec<StemChoice> = Vec::new();
    let mut i: usize = 0;
    while i < table.len()
        invariant
            i <= table@.len(),
            table@.map_values(|p: (&'static str, &'static str)| (p.0@, p.1@)) == t,
            t == stem_table(),
            v@.len() == i,
            forall|k: int| 0 <= k < i ==> (#[trigger] v@[k]).id@ == t[k].0 && v@[k].name@ == t[k].1,
        decreases table.len() - i,
    {
        let (id, name) = table[i];
        assert(t[i as int] == (id@, name@));
        let c = StemChoice { id: string_of(&chars_of(id)), name: string_of(&chars_of(name)) };
        v.push(c);
        i += 1;
    }
    v
}

/// An operation that makes a new track from an existing one.
#[allow(inconsistent_fields)]
pub enum Operation {
    /// Isolate one instrument or voice from the mix.
    Stem { track: String },
    /// Restyle the whole song, keeping its structure.
    Cover { caption: String },
    /// Regenerate a slice of the song.
    Repaint { caption: Option<String> },
    /// Make the song longer by painting past its end.
    Extend,
    /// Add a named instrument layer over the existing audio.
    AddLayer { track: String, caption: Option<String> },
}

impl Operation {
    /// The title of the track this operation makes from one titled `source`.
    pub open spec fn title_spec(&self, source: Seq<char>) -> Seq<char> {
        match self {
            Operation::Stem { track } => source + " — "@ + stem_name(track@),
            Operation::Cover { .. } => source + " (cover)"@,
            Operation::Repaint { .. } => source + " (edited)"@,
            Operation::Extend => source + " (longer)"@,
            Operation::AddLayer { track, .. } => source + " + "@ + track@,
        }
    }

    /// The engine task that carries the operation out.
    pub open spec fn task_spec(&self) -> Seq<char> {
        match self {
            Operation::Stem { .. } => "extract"@,
            Operation::Cover { .. } => "cover"@,
            Operation::Repaint { .. } => "repaint"@,
            Operation::Extend => "repaint"@,
            Operation::AddLayer { .. } => "lego"@,
        }
    }

    /// How the new track is titled, given the source's title.
    pub fn title_for(&self, source: &str) -> (t: String)
        ensures
            t@ == self.title_spec(source@),
    {
        let mut v = chars_of(source);
        match self {
            Operation::Stem { track } => {
                append_chars(&mut v, &chars_of(" — "));
                let tv = chars_of(track.as_str());
                append_chars(&mut v, &pretty_stem(&tv));
            },
            Operation::Cover { .. } => {
                append_chars(&mut v, &chars_of(" (cover)"));
            },
            Operation::Repaint { .. } => {
                append_chars(&mut v, &chars_of(" (edited)"));
            },
            Operation::Extend => {
                append_chars(&mut v, &chars_of(" (longer)"));
            },
            Operation::AddLayer { track, .. } => {
                append_chars(&mut v, &chars_of(" + "));
                append_chars(&mut v, &chars_of(track.as_str()));
            },
        }
        string_of(&v)
    }

    /// Isolating a stem and adding a layer need the detailed (SFT) diffusion
    /// model; the fast one cannot run them.
    pub fn needs_sft(&self) -> (r: bool)
        ensures
            r == (self is Stem || self is AddLayer),
    {
        match self {
            Operation::Stem { .. } => true,
            Operation::AddLayer { .. } => true,
            _ => false,
        }
    }

    /// The engine task type. Extending is outpainting: a repaint past the end.
    pub fn task_type(&self) -> (r: &'static str)
        ensures
            r@ == self.task_spec(),
    {
        match self {
            Operation::Stem { .. } => "extract",
            Operation::Cover { .. } => "cover",
            Operation::Repaint { .. } => "repaint",
            Operation::Extend => "repaint",
            Operation::AddLayer { .. } => "lego",
        }
    }
}

} // verus!
