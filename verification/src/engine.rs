//! The engine supervisor's decisions: which VAE chunk size to try next after
//! the GPU loses its device, what a model file is for and which installed
//! language model to use, how to read a crash from the engine's log, and what
//! to do after a failed generation.

use vstd::prelude::*;
use crate::text::{
    append_chars, chars_of, contains, decimal, decimal_chars, ends_with, starts_with, string_of,
    text_contains, text_ends_with, text_starts_with,
};

verus! {

/// Where a chunk size starts on a GPU never seen before.
pub const DEFAULT_CHUNK: u32 = 128;

/// How many times a lost device may shrink the chunk and retry before the
/// generation gives up.
pub const MAX_DEVICE_LOST_RETRIES: usize = 3;

/// VAE decode settings, persisted per machine.
#[derive(Debug, Clone, Copy, PartialEq, Eq, Structural)]
pub struct EngineSettings {
    /// VAE latent frames per tile.
    pub vae_chunk: u32,
    /// Set once a full generation has succeeded at `vae_chunk`.
    pub vae_chunk_verified: bool,
    /// Decode on the CPU: the last resort once every chunk size lost the device.
    pub cpu_fallback: bool,
}

impl Default for EngineSettings {
    fn default() -> (s: Self)
        ensures
            s.vae_chunk == DEFAULT_CHUNK,
            !s.vae_chunk_verified,
            !s.cpu_fallback,
    {
        EngineSettings { vae_chunk: DEFAULT_CHUNK, vae_chunk_verified: false, cpu_fallback: false }
    }
}

/// The chunk sizes to fall back through, largest first.
pub open spec fn chunk_ladder() -> Seq<u32> {
    seq![256u32, 192u32, 128u32, 64u32]
}

/// The first size on the ladder below `chunk`, if any.
pub open spec fn next_chunk(chunk: u32) -> Option<u32> {
    if 256 < chunk {
        Some(256u32)
    } else if 192 < chunk {
        Some(192u32)
    } else if 128 < chunk {
        Some(128u32)
    } else if 64 < chunk {
        Some(64u32)
    } else {
        None
    }
}

/// The ladder's chunk sizes.
pub fn chunk_ladder_sizes() -> (l: Vec<u32>)
    ensures
        l@ == chunk_ladder(),
{
    let l: Vec<u32> = vec![256, 192, 128, 64];
    assert(l@ =~= chunk_ladder());
    l
}

/// `next_chunk` is the first ladder entry below the chunk.
pub proof fn lemma_next_chunk_is_first_below(chunk: u32)
    ensures
        match next_chunk(chunk) {
            Some(c) => c < chunk && chunk_ladder().contains(c) && forall|i: int|
                0 <= i < 4 && #[trigger] chunk_ladder()[i] > c ==> chunk_ladder()[i] >= chunk,
            None => forall|i: int| 0 <= i < 4 ==> #[trigger] chunk_ladder()[i] >= chunk,
        },
{
    let l = chunk_ladder();
    assert(l[0] == 256 && l[1] == 192 && l[2] == 128 && l[3] == 64);
    if let Some(c) = next_chunk(chunk) {
        if c == 256 {
            assert(l[0] == c);
        } else if c == 192 {
            assert(l[1] == c);
        } else if c == 128 {
            assert(l[2] == c);
        } else {
            assert(l[3] == c);
        }
    }
}

impl EngineSettings {
    /// Step down to the next smaller VAE chunk. Returns false when there is
    /// none left, having switched to CPU decoding instead.
    pub fn reduce_chunk(&mut self) -> (stepped: bool)
        ensures
            match next_chunk(old(self).vae_chunk) {
                Some(c) => stepped && final(self).vae_chunk == c && !final(self).vae_chunk_verified
                    && final(self).cpu_fallback == old(self).cpu_fallback,
                None => !stepped && final(self).cpu_fallback && final(self).vae_chunk == old(
                    self,
                ).vae_chunk && final(self).vae_chunk_verified == old(self).vae_chunk_verified,
            },
    {
        let ladder = chunk_ladder_sizes();
        let mut i: usize = 0;
        while i < ladder.len()
            invariant
                ladder@ == chunk_ladder(),
                i <= 4,
                forall|k: int| 0 <= k < i ==> ladder@[k] >= self.vae_chunk,
                self.vae_chunk == old(self).vae_chunk,
                self.vae_chunk_verified == old(self).vae_chunk_verified,
                self.cpu_fallback == old(self).cpu_fallback,
            decreases 4 - i,
        {
            if ladder[i] < self.vae_chunk {
                self.vae_chunk = ladder[i];
                self.vae_chunk_verified = false;
                return true;
            }
            i += 1;
        }
        self.cpu_fallback = true;
        false
    }

    /// Record that this chunk size completed a real generation.
    pub fn mark_chunk_verified(&mut self)
        ensures
            final(self).vae_chunk == old(self).vae_chunk,
            final(self).vae_chunk_verified,
            final(self).cpu_fallback == old(self).cpu_fallback,
    {
        self.vae_chunk_verified = true;
    }
}

/// Every step down the ladder makes the chunk strictly smaller, and the
/// fifth step from anywhere at or below the default is the CPU: a device
/// loss can only be retried a bounded number of times.
pub proof fn lemma_ladder_descends(chunk: u32)
    ensures
        next_chunk(chunk) matches Some(c) ==> c < chunk,
        next_chunk(chunk) is None ==> chunk <= 64,
        next_chunk(chunk) matches Some(c) ==> next_chunk(c) is None || next_chunk(c)->0 < c,
{
}

/// The VAE overlap the engine is started with: an eighth of the chunk, but
/// never under 8 frames.
pub fn vae_overlap(chunk: u32) -> (o: u32)
    ensures
        o == if chunk / 8 > 8 {
            chunk / 8
        } else {
            8
        },
{
    let e = chunk / 8;
    if e > 8 {
        e
    } else {
        8
    }
}

// ---------------------------------------------------------------- models

/// What an engine model file is for.
#[derive(Debug, Clone, Copy, PartialEq, Eq, Structural)]
pub enum ModelKind {
    Lm,
    Embedding,
    Vae,
    DitTurbo,
    DitSft,
}

/// What a file in the models directory is, by its name: only `.gguf` files
/// count; `-lm-` marks a language model, `Qwen3-Embedding` the text encoder,
/// `vae-` the decoder, `turbo` the fast DiT, `sft` or `base` the detailed one.
pub open spec fn model_kind(name: Seq<char>) -> Option<ModelKind> {
    if !ends_with(name, ".gguf"@) {
        None
    } else if contains(name, "-lm-"@) {
        Some(ModelKind::Lm)
    } else if starts_with(name, "Qwen3-Embedding"@) {
        Some(ModelKind::Embedding)
    } else if starts_with(name, "vae-"@) {
        Some(ModelKind::Vae)
    } else if contains(name, "turbo"@) {
        Some(ModelKind::DitTurbo)
    } else if contains(name, "sft"@) || contains(name, "base"@) {
        Some(ModelKind::DitSft)
    } else {
        None
    }
}

/// The kind of model a file name denotes.
pub fn classify_model(name: &str) -> (k: Option<ModelKind>)
    ensures
        k == model_kind(name@),
{
    let n = chars_of(name);
    if !text_ends_with(&n, ".gguf") {
        None
    } else if text_contains(&n, "-lm-") {
        Some(ModelKind::Lm)
    } else if text_starts_with(&n, "Qwen3-Embedding") {
        Some(ModelKind::Embedding)
    } else if text_starts_with(&n, "vae-") {
        Some(ModelKind::Vae)
    } else if text_contains(&n, "turbo") {
        Some(ModelKind::DitTurbo)
    } else if text_contains(&n, "sft") || text_contains(&n, "base") {
        Some(ModelKind::DitSft)
    } else {
        None
    }
}

/// The names in `names` of kind `k`, in order.
pub open spec fn names_of_kind(names: Seq<Seq<char>>, k: ModelKind) -> Seq<Seq<char>>
    decreases names.len(),
{
    if names.len() == 0 {
        Seq::empty()
    } else {
        let before = names_of_kind(names.drop_last(), k);
        if model_kind(names.last()) == Some(k) {
            before.push(names.last())
        } else {
            before
        }
    }
}

/// The texts of a list of strings.
pub open spec fn texts(v: Seq<String>) -> Seq<Seq<char>> {
    v.map_values(|s: String| s@)
}

/// Which model files are present, by role.
pub struct AvailableModels {
    pub lm: Vec<String>,
    pub embedding: Vec<String>,
    pub vae: Vec<String>,
    pub dit_turbo: Vec<String>,
    pub dit_sft: Vec<String>,
}

/// The rank of a language model by size: 4B over 1.7B over 0.6B over unknown.
pub open spec fn lm_rank_spec(name: Seq<char>) -> u8 {
    if contains(name, "-4B-"@) {
        3
    } else if contains(name, "-1.7B-"@) {
        2
    } else if contains(name, "-0.6B-"@) {
        1
    } else {
        0
    }
}

/// `i` is where `Iterator::max_by_key` stops in `names`: a highest rank, and
/// the last one of them.
pub open spec fn is_last_max(names: Seq<Seq<char>>, i: int) -> bool {
    &&& 0 <= i < names.len()
    &&& forall|j: int| 0 <= j < names.len() ==> lm_rank_spec(#[trigger] names[j]) <= lm_rank_spec(names[i])
    &&& forall|j: int| i < j < names.len() ==> lm_rank_spec(#[trigger] names[j]) < lm_rank_spec(names[i])
}

/// `i` is where `Iterator::min_by_key` stops in `names`: a lowest rank, and
/// the first one of them.
pub open spec fn is_first_min(names: Seq<Seq<char>>, i: int) -> bool {
    &&& 0 <= i < names.len()
    &&& forall|j: int| 0 <= j < names.len() ==> lm_rank_spec(names[i]) <= lm_rank_spec(#[trigger] names[j])
    &&& forall|j: int| 0 <= j < i ==> lm_rank_spec(names[i]) < lm_rank_spec(#[trigger] names[j])
}

fn push_copy(v: &mut Vec<String>, s: &str)
    ensures
        texts(final(v)@) == texts(old(v)@).push(s@),
{
    let c = chars_of(s);
    let t = string_of(&c);
    v.push(t);
    assert(texts(final(v)@) =~= texts(old(v)@).push(s@));
}

impl AvailableModels {
    /// A set the engine can make music with: a songwriter, a text encoder, a
    /// decoder and a fast sound model.
    pub open spec fn can_generate(&self) -> bool {
        self.lm@.len() > 0 && self.embedding@.len() > 0 && self.vae@.len() > 0
            && self.dit_turbo@.len() > 0
    }

    /// A set that can also do stem work: it holds a detailed (SFT) model.
    pub open spec fn can_do_stems(&self) -> bool {
        self.dit_sft@.len() > 0
    }

    /// No models at all.
    pub fn empty() -> (m: Self)
        ensures
            m.lm@.len() == 0,
            m.embedding@.len() == 0,
            m.vae@.len() == 0,
            m.dit_turbo@.len() == 0,
            m.dit_sft@.len() == 0,
    {
        AvailableModels {
            lm: Vec::new(),
            embedding: Vec::new(),
            vae: Vec::new(),
            dit_turbo: Vec::new(),
            dit_sft: Vec::new(),
        }
    }

    /// The models among the files named `names`, each under its role, in the
    /// order they were listed; files of no recognised role are ignored.
    pub fn from_names(names: &Vec<String>) -> (m: Self)
        ensures
            texts(m.lm@) == names_of_kind(texts(names@), ModelKind::Lm),
            texts(m.embedding@) == names_of_kind(texts(names@), ModelKind::Embedding),
            texts(m.vae@) == names_of_kind(texts(names@), ModelKind::Vae),
            texts(m.dit_turbo@) == names_of_kind(texts(names@), ModelKind::DitTurbo),
            texts(m.dit_sft@) == names_of_kind(texts(names@), ModelKind::DitSft),
    {
        let mut m = AvailableModels::empty();
        let mut i: usize = 0;
        assert(texts(m.lm@) =~= Seq::<Seq<char>>::empty());
        assert(texts(m.embedding@) =~= Seq::<Seq<char>>::empty());
        assert(texts(m.vae@) =~= Seq::<Seq<char>>::empty());
        assert(texts(m.dit_turbo@) =~= Seq::<Seq<char>>::empty());
        assert(texts(m.dit_sft@) =~= Seq::<Seq<char>>::empty());
        while i < names.len()
            invariant
                i <= names@.len(),
                texts(m.lm@) == names_of_kind(texts(names@.take(i as int)), ModelKind::Lm),
                texts(m.embedding@) == names_of_kind(
                    texts(names@.take(i as int)),
                    ModelKind::Embedding,
                ),
                texts(m.vae@) == names_of_kind(texts(names@.take(i as int)), ModelKind::Vae),
                texts(m.dit_turbo@) == names_of_kind(
                    texts(names@.take(i as int)),
                    ModelKind::DitTurbo,
                ),
                texts(m.dit_sft@) == names_of_kind(texts(names@.take(i as int)), ModelKind::DitSft),
            decreases names.len() - i,
        {
            let name = names[i].as_str();
            let ghost t = texts(names@.take(i + 1));
            assert(t.drop_last() =~= texts(names@.take(i as int)));
            assert(t.last() == names@[i as int]@);
            match classify_model(name) {
                Some(ModelKind::Lm) => push_copy(&mut m.lm, name),
                Some(ModelKind::Embedding) => push_copy(&mut m.embedding, name),
                Some(ModelKind::Vae) => push_copy(&mut m.vae, name),
                Some(ModelKind::DitTurbo) => push_copy(&mut m.dit_turbo, name),
                Some(ModelKind::DitSft) => push_copy(&mut m.dit_sft, name),
                None => {},
            }
            i += 1;
        }
        assert(names@.take(names@.len() as int) =~= names@);
        m
    }

    /// The size rank of a language model file.
    pub fn lm_rank(name: &str) -> (r: u8)
        ensures
            r == lm_rank_spec(name@),
    {
        let n = chars_of(name);
        if text_contains(&n, "-4B-") {
            3
        } else if text_contains(&n, "-1.7B-") {
            2
        } else if text_contains(&n, "-0.6B-") {
            1
        } else {
            0
        }
    }

    /// Largest installed language model; among equals, the last listed.
    pub fn best_lm(&self) -> (r: Option<String>)
        ensures
            r is None <==> self.lm@.len() == 0,
            r matches Some(s) ==> exists|i: int| is_last_max(texts(self.lm@), i) && s@ == self.lm@[i]@,
    {
        if self.lm.len() == 0 {
            return None;
        }
        let ghost t = texts(self.lm@);
        let mut best: usize = 0;
        let mut best_rank = Self::lm_rank(self.lm[0].as_str());
        let mut i: usize = 1;
        while i < self.lm.len()
            invariant
                t == texts(self.lm@),
                1 <= i <= self.lm@.len(),
                best < i,
                best_rank == lm_rank_spec(t[best as int]),
                forall|j: int| 0 <= j < i ==> lm_rank_spec(#[trigger] t[j]) <= best_rank,
                forall|j: int| best < j < i ==> lm_rank_spec(#[trigger] t[j]) < best_rank,
            decreases self.lm.len() - i,
        {
            let r = Self::lm_rank(self.lm[i].as_str());
            assert(t[i as int] == self.lm@[i as int]@);
            if r >= best_rank {
                best = i;
                best_rank = r;
            }
            i += 1;
        }
        let c = chars_of(self.lm[best].as_str());
        assert(t[best as int] == self.lm@[best as int]@);
        assert(is_last_max(t, best as int));
        Some(string_of(&c))
    }

    /// Smallest installed language model, for the fast path; among equals,
    /// the first listed.
    pub fn fastest_lm(&self) -> (r: Option<String>)
        ensures
            r is None <==> self.lm@.len() == 0,
            r matches Some(s) ==> exists|i: int| is_first_min(texts(self.lm@), i) && s@ == self.lm@[i]@,
    {
        if self.lm.len() == 0 {
            return None;
        }
        let ghost t = texts(self.lm@);
        let mut best: usize = 0;
        let mut best_rank = Self::lm_rank(self.lm[0].as_str());
        let mut i: usize = 1;
        while i < self.lm.len()
            invariant
                t == texts(self.lm@),
                1 <= i <= self.lm@.len(),
                best < i,
                best_rank == lm_rank_spec(t[best as int]),
                forall|j: int| 0 <= j < i ==> best_rank <= lm_rank_spec(#[trigger] t[j]),
                forall|j: int| 0 <= j < best ==> best_rank < lm_rank_spec(#[trigger] t[j]),
            decreases self.lm.len() - i,
        {
            let r = Self::lm_rank(self.lm[i].as_str());
            assert(t[i as int] == self.lm@[i as int]@);
            if r < best_rank {
                best = i;
                best_rank = r;
            }
            i += 1;
        }
        let c = chars_of(self.lm[best].as_str());
        assert(t[best as int] == self.lm@[best as int]@);
        assert(is_first_min(t, best as int));
        Some(string_of(&c))
    }

    /// Everything plain generation needs is installed.
    pub fn is_complete(&self) -> (r: bool)
        ensures
            r == self.can_generate(),
    {
        !self.lm.is_empty() && !self.embedding.is_empty() && !self.vae.is_empty()
            && !self.dit_turbo.is_empty()
    }

    /// Stem separation, lego and complete need the SFT/base DiT.
    pub fn supports_stems(&self) -> (r: bool)
        ensures
            r == self.can_do_stems(),
    {
        !self.dit_sft.is_empty()
    }
}

// ---------------------------------------------------------------- state

/// The engine process's state.
#[derive(Debug, Clone, Copy, PartialEq, Eq, Structural)]
pub enum EngineState {
    Stopped,
    Starting,
    Ready,
    /// Died unexpectedly: almost always a lost GPU device mid-decode.
    Crashed,
}

/// What the UI is told about the engine.
pub struct EngineStatus {
    pub state: EngineState,
    pub models: AvailableModels,
    pub models_complete: bool,
    pub supports_stems: bool,
    pub vae_chunk: u32,
    pub cpu_fallback: bool,
}

/// The status report for an engine in `state` with `settings` and `models`.
pub fn engine_status(state: EngineState, settings: &EngineSettings, models: AvailableModels) -> (s: EngineStatus)
    ensures
        s.state == state,
        s.models == models,
        s.models_complete == (models.lm@.len() > 0 && models.embedding@.len() > 0
            && models.vae@.len() > 0 && models.dit_turbo@.len() > 0),
        s.supports_stems == (models.dit_sft@.len() > 0),
        s.vae_chunk == settings.vae_chunk,
        s.cpu_fallback == settings.cpu_fallback,
{
    let models_complete = models.is_complete();
    let supports_stems = models.supports_stems();
    EngineStatus {
        state,
        models,
        models_complete,
        supports_stems,
        vae_chunk: settings.vae_chunk,
        cpu_fallback: settings.cpu_fallback,
    }
}

// ---------------------------------------------------------------- crashes

/// A log line that reports a lost GPU device.
pub open spec fn device_lost_line(l: Seq<char>) -> bool {
    contains(l, "DeviceLost"@) || contains(l, "context is lost"@) || contains(l, "ErrorDeviceLost"@)
}

/// Some line of the log reports a lost GPU device.
pub open spec fn log_device_lost(log: Seq<Seq<char>>) -> bool {
    exists|i: int| 0 <= i < log.len() && device_lost_line(#[trigger] log[i])
}

fn line_device_lost(l: &str) -> (r: bool)
    ensures
        r == device_lost_line(l@),
{
    let v = chars_of(l);
    text_contains(&v, "DeviceLost") || text_contains(&v, "context is lost") || text_contains(
        &v,
        "ErrorDeviceLost",
    )
}

/// Did the last crash look like a lost GPU device?
pub fn crashed_on_device_lost(log: &Vec<String>) -> (r: bool)
    ensures
        r == log_device_lost(texts(log@)),
{
    let ghost t = texts(log@);
    let mut i: usize = 0;
    while i < log.len()
        invariant
            t == texts(log@),
            i <= log@.len(),
            forall|k: int| 0 <= k < i ==> !device_lost_line(#[trigger] t[k]),
        decreases log.len() - i,
    {
        assert(t[i as int] == log@[i as int]@);
        if line_device_lost(log[i].as_str()) {
            return true;
        }
        i += 1;
    }
    false
}

/// A log line that mentions an error.
pub open spec fn error_line(l: Seq<char>) -> bool {
    contains(l, "error"@) || contains(l, "Error"@)
}

/// The plain-language cause of a crash: the driver, when the log shows a lost
/// device; otherwise the last line that mentions an error; otherwise a
/// general statement.
pub open spec fn explanation(log: Seq<Seq<char>>) -> Seq<char> {
    if log_device_lost(log) {
        "the graphics driver interrupted a long decode step"@
    } else if exists|i: int| 0 <= i < log.len() && error_line(#[trigger] log[i]) {
        log[choose|i: int|
            0 <= i < log.len() && error_line(#[trigger] log[i]) && forall|j: int|
                i < j < log.len() ==> !error_line(#[trigger] log[j])]
    } else {
        "the engine stopped unexpectedly"@
    }
}

/// Plain-language cause for the UI. Users should never see a Vulkan backtrace.
pub fn explain_failure(log: &Vec<String>) -> (r: String)
    ensures
        r@ == explanation(texts(log@)),
{
    let ghost t = texts(log@);
    if crashed_on_device_lost(log) {
        let v = chars_of("the graphics driver interrupted a long decode step");
        return string_of(&v);
    }
    let mut i = log.len();
    while i > 0
        invariant
            t == texts(log@),
            !log_device_lost(t),
            i <= log@.len(),
            forall|k: int| i <= k < log@.len() ==> !error_line(#[trigger] t[k]),
        decreases i,
    {
        let v = chars_of(log[i - 1].as_str());
        assert(t[i - 1] == log@[i - 1]@);
        if text_contains(&v, "error") || text_contains(&v, "Error") {
            let ghost k = (i - 1) as int;
            assert(0 <= k < t.len() && error_line(t[k]) && forall|j: int|
                k < j < t.len() ==> !error_line(#[trigger] t[j]));
            let ghost c = choose|i: int|
                0 <= i < t.len() && error_line(#[trigger] t[i]) && forall|j: int|
                    i < j < t.len() ==> !error_line(#[trigger] t[j]);
            assert(c == k) by {
                if c < k {
                    assert(!error_line(t[k]));
                } else if c > k {
                    assert(!error_line(t[c]));
                }
            }
            return string_of(&v);
        }
        i -= 1;
    }
    let v = chars_of("the engine stopped unexpectedly");
    string_of(&v)
}

// ---------------------------------------------------------------- recovery

/// What to do after a generation attempt failed.
#[derive(Debug)]
pub enum Recovery {
    /// The engine is still alive: the failure is the job's own, report it.
    Report,
    /// Too many device losses: give up with this message.
    GiveUp(String),
    /// Restart the engine and try again as attempt number `attempt`, showing
    /// `message` meanwhile.
    Retry { attempt: usize, message: String },
}

/// The message shown while retrying after a failure.
pub open spec fn retry_message(stepped: bool, device_lost: bool, attempt: nat) -> Seq<char> {
    if !device_lost {
        "Restarting the engine"@
    } else if stepped {
        "Adjusting for your graphics card (attempt "@ + decimal(attempt + 1) + seq![')']
    } else {
        "Switching to CPU rendering for reliability"@
    }
}

/// The message a generation gives up with.
pub open spec fn give_up_message(explanation: Seq<char>) -> Seq<char> {
    "Generation kept failing because "@ + explanation
        + ". Aria will use slower CPU decoding from now on."@
}

/// Decide what follows a failed attempt. `attempt` counts the device losses
/// so far; `died` says whether the engine process is gone, `device_lost`
/// whether its log shows a lost GPU device, and `explanation` is the
/// plain-language cause. A death steps the VAE chunk down (or to the CPU).
pub fn after_failure(
    settings: &mut EngineSettings,
    attempt: usize,
    died: bool,
    device_lost: bool,
    explanation: &str,
) -> (r: Recovery)
    ensures
        !died ==> r == Recovery::Report && *final(settings) == *old(settings),
        died && attempt + 1 > MAX_DEVICE_LOST_RETRIES ==> *final(settings) == *old(settings) && (
        r matches Recovery::GiveUp(m) && m@ == give_up_message(explanation@)),
        died && attempt + 1 <= MAX_DEVICE_LOST_RETRIES ==> (match r {
            Recovery::Retry { attempt: a, message } => a == attempt + 1 && message@ == retry_message(
                next_chunk(old(settings).vae_chunk) is Some,
                device_lost,
                a as nat,
            ) && (match next_chunk(old(settings).vae_chunk) {
                Some(c) => final(settings).vae_chunk == c && !final(settings).vae_chunk_verified
                    && final(settings).cpu_fallback == old(settings).cpu_fallback,
                None => final(settings).cpu_fallback && final(settings).vae_chunk == old(
                    settings,
                ).vae_chunk && final(settings).vae_chunk_verified == old(
                    settings,
                ).vae_chunk_verified,
            }),
            _ => false,
        }),
{
    if !died {
        return Recovery::Report;
    }
    if attempt >= MAX_DEVICE_LOST_RETRIES {
        let mut m = chars_of("Generation kept failing because ");
        let e = chars_of(explanation);
        append_chars(&mut m, &e);
        let tail = chars_of(". Aria will use slower CPU decoding from now on.");
        append_chars(&mut m, &tail);
        return Recovery::GiveUp(string_of(&m));
    }
    let next = attempt + 1;
    let stepped = settings.reduce_chunk();
    let message = if !device_lost {
        let v = chars_of("Restarting the engine");
        string_of(&v)
    } else if stepped {
        let mut v = chars_of("Adjusting for your graphics card (attempt ");
        let d = decimal_chars((next + 1) as u64);
        append_chars(&mut v, &d);
        v.push(')');
        string_of(&v)
    } else {
        let v = chars_of("Switching to CPU rendering for reliability");
        string_of(&v)
    };
    Recovery::Retry { attempt: next, message }
}

// ---------------------------------------------------------------- finding the engine

/// Where the engine server and its models live.
pub struct EnginePaths {
    pub server_bin: String,
    pub models_dir: String,
}

/// `Path::join` of a relative `b` onto `a`: a separator goes between them
/// unless `a` is empty or already ends in one.
pub open spec fn join_spec(a: Seq<char>, b: Seq<char>) -> Seq<char> {
    if a.len() == 0 || a.last() == '/' {
        a + b
    } else {
        a + seq!['/'] + b
    }
}

fn join_path(a: &Vec<char>, b: &str) -> (r: Vec<char>)
    ensures
        r@ == join_spec(a@, b@),
{
    let mut r: Vec<char> = Vec::new();
    append_chars(&mut r, a);
    if a.len() > 0 && a[a.len() - 1] != '/' {
        r.push('/');
    }
    append_chars(&mut r, &chars_of(b));
    proof {
        if a@.len() == 0 || a@.last() == '/' {
            assert(r@ =~= a@ + b@);
        } else {
            assert(r@ =~= a@ + seq!['/'] + b@);
        }
    }
    r
}

/// The places an engine can live, in the order they are tried: beside the
/// application and in its `engine` folder (installed), then the repository's
/// engine tree from the working directory and from its parent (development).
pub open spec fn engine_roots(app_dir: Option<Seq<char>>, cwd: Option<Seq<char>>) -> Seq<Seq<char>> {
    (match app_dir {
        Some(d) => seq![d, join_spec(d, "engine"@)],
        None => Seq::empty(),
    }) + (match cwd {
        Some(c) => seq![join_spec(c, "engine/acestep.cpp"@), join_spec(c, "../engine/acestep.cpp"@)],
        None => Seq::empty(),
    })
}

/// The server binaries tried under a root, packaged static build first: it is
/// the one that runs without shared libraries beside it.
pub open spec fn server_candidates(root: Seq<char>) -> Seq<Seq<char>> {
    seq![
        join_spec(root, "build-static/ace-server"@),
        join_spec(root, "build/ace-server"@),
        join_spec(root, "ace-server"@),
    ]
}

/// Every (server, models folder) pair tried, in order: each root's server
/// candidates, all with that root's `models` folder.
pub open spec fn engine_candidates(roots: Seq<Seq<char>>) -> Seq<(Seq<char>, Seq<char>)>
    decreases roots.len(),
{
    if roots.len() == 0 {
        Seq::empty()
    } else {
        let r = roots[0];
        let m = join_spec(r, "models"@);
        seq![
            (server_candidates(r)[0], m),
            (server_candidates(r)[1], m),
            (server_candidates(r)[2], m),
        ] + engine_candidates(roots.skip(1))
    }
}

/// The views of a list of engine locations.
pub open spec fn path_views(v: Seq<EnginePaths>) -> Seq<(Seq<char>, Seq<char>)> {
    v.map_values(|p: EnginePaths| (p.server_bin@, p.models_dir@))
}

fn opt_view(o: &Option<String>) -> (r: Option<Vec<char>>)
    ensures
        match o {
            Some(s) => r matches Some(v) && v@ == s@,
            None => r is None,
        },
{
    match o {
        Some(s) => Some(chars_of(s.as_str())),
        None => None,
    }
}

/// The engine locations to try, in order, for an application folder
/// `app_dir` and working directory `cwd` (either may be unknown). The first
/// whose server is a file and whose models folder exists is the engine.
pub fn discovery_candidates(app_dir: &Option<String>, cwd: &Option<String>) -> (v: Vec<EnginePaths>)
    ensures
        path_views(v@) == engine_candidates(
            engine_roots(
                match app_dir {
                    Some(d) => Some(d@),
                    None => None,
                },
                match cwd {
                    Some(c) => Some(c@),
                    None => None,
                },
            ),
        ),
{
    let ghost a = match app_dir {
        Some(d) => Some(d@),
        None => None,
    };
    let ghost c = match cwd {
        Some(x) => Some(x@),
        None => None,
    };
    let mut roots: Vec<Vec<char>> = Vec::new();
    match opt_view(app_dir) {
        Some(d) => {
            let e = join_path(&d, "engine");
            roots.push(d);
            roots.push(e);
        },
        None => {},
    }
    match opt_view(cwd) {
        Some(w) => {
            roots.push(join_path(&w, "engine/acestep.cpp"));
            roots.push(join_path(&w, "../engine/acestep.cpp"));
        },
        None => {},
    }
    let ghost rs = engine_roots(a, c);
    assert(roots@.map_values(|r: Vec<char>| r@) =~= rs);
    let mut out: Vec<EnginePaths> = Vec::new();
    let mut i: usize = 0;
    assert(rs.skip(0) =~= rs);
    assert(path_views(out@) + engine_candidates(rs.skip(0)) =~= engine_candidates(rs));
    while i < roots.len()
        invariant
            i <= roots@.len(),
            roots@.map_values(|r: Vec<char>| r@) == rs,
            path_views(out@) + engine_candidates(rs.skip(i as int)) == engine_candidates(rs),
        decreases roots.len() - i,
    {
        let r = &roots[i];
        assert(rs.skip(i as int)[0] == r@);
        assert(rs.skip(i as int).skip(1) =~= rs.skip(i + 1));
        let ghost before = path_views(out@);
        let m = join_path(r, "models");
        let a1 = join_path(r, "build-static/ace-server");
        let a2 = join_path(r, "build/ace-server");
        let a3 = join_path(r, "ace-server");
        let ms = string_of(&m);
        out.push(EnginePaths { server_bin: string_of(&a1), models_dir: string_of(&m) });
        out.push(EnginePaths { server_bin: string_of(&a2), models_dir: string_of(&m) });
        out.push(EnginePaths { server_bin: string_of(&a3), models_dir: ms });
        let ghost three = seq![(a1@, m@), (a2@, m@), (a3@, m@)];
        assert(path_views(out@) =~= before + three);
        assert(engine_candidates(rs.skip(i as int)) == three + engine_candidates(rs.skip(i + 1)));
        assert(before + three + engine_candidates(rs.skip(i + 1)) =~= before + (three
            + engine_candidates(rs.skip(i + 1))));
        i += 1;
    }
    assert(rs.skip(i as int) =~= Seq::<Seq<char>>::empty());
    assert(path_views(out@) + Seq::<(Seq<char>, Seq<char>)>::empty() =~= path_views(out@));
    out
}

// ---------------------------------------------------------------- running the engine

/// Where the engine listens.
pub open spec fn engine_url() -> Seq<char> {
    "http://127.0.0.1:8422"@
}

/// The engine's base URL.
pub fn engine_base_url() -> (u: String)
    ensures
        u@ == engine_url(),
{
    string_of(&chars_of("http://127.0.0.1:8422"))
}

/// A start request does nothing while the engine is up or on its way up.
pub fn needs_start(state: EngineState) -> (r: bool)
    ensures
        r == !(state is Ready || state is Starting),
{
    match state {
        EngineState::Ready | EngineState::Starting => false,
        _ => true,
    }
}

/// The command line the engine server is started with: its models, loopback
/// address and port, the VAE chunk and overlap, and a language-model batch of
/// up to four takes.
pub open spec fn server_args_spec(models_dir: Seq<char>, chunk: u32) -> Seq<Seq<char>> {
    let overlap: nat = if chunk / 8 > 8 {
        (chunk / 8) as nat
    } else {
        8
    };
    seq![
        "--models"@,
        models_dir,
        "--host"@,
        "127.0.0.1"@,
        "--port"@,
        "8422"@,
        "--vae-chunk"@,
        decimal(chunk as nat),
        "--vae-overlap"@,
        decimal(overlap),
        "--max-batch"@,
        "4"@,
    ]
}

/// The arguments the engine server is started with.
pub fn server_args(paths: &EnginePaths, settings: &EngineSettings) -> (v: Vec<String>)
    ensures
        texts(v@) == server_args_spec(paths.models_dir@, settings.vae_chunk),
{
    let overlap = vae_overlap(settings.vae_chunk);
    let mut v: Vec<String> = Vec::new();
    v.push(string_of(&chars_of("--models")));
    v.push(string_of(&chars_of(paths.models_dir.as_str())));
    v.push(string_of(&chars_of("--host")));
    v.push(string_of(&chars_of("127.0.0.1")));
    v.push(string_of(&chars_of("--port")));
    v.push(string_of(&chars_of("8422")));
    v.push(string_of(&chars_of("--vae-chunk")));
    v.push(string_of(&decimal_chars(settings.vae_chunk as u64)));
    v.push(string_of(&chars_of("--vae-overlap")));
    v.push(string_of(&decimal_chars(overlap as u64)));
    v.push(string_of(&chars_of("--max-batch")));
    v.push(string_of(&chars_of("4")));
    assert(texts(v@) =~= server_args_spec(paths.models_dir@, settings.vae_chunk));
    v
}

/// The environment the engine server gets beyond ours: decoding forced onto
/// the CPU once every chunk size has lost the device.
pub fn server_env(settings: &EngineSettings) -> (e: Option<(String, String)>)
    ensures
        settings.cpu_fallback ==> (e matches Some(p) && p.0@ == "GGML_BACKEND"@ && p.1@ == "cpu"@),
        !settings.cpu_fallback ==> e is None,
{
    if settings.cpu_fallback {
        Some((string_of(&chars_of("GGML_BACKEND")), string_of(&chars_of("cpu"))))
    } else {
        None
    }
}

/// How many lines of engine output are kept to explain a crash.
pub const LOG_LINES: usize = 200;

/// Append a line of engine output, dropping the oldest once more than
/// `LOG_LINES` are held.
pub fn push_log(tail: &mut Vec<String>, line: String)
    ensures
        old(tail)@.len() < LOG_LINES ==> texts(final(tail)@) == texts(old(tail)@).push(line@),
        old(tail)@.len() >= LOG_LINES ==> texts(final(tail)@) == texts(old(tail)@).push(line@).skip(
            1,
        ),
{
    let ghost before = texts(tail@);
    let ghost l = line@;
    tail.push(line);
    assert(texts(tail@) =~= before.push(l));
    if tail.len() > LOG_LINES {
        tail.remove(0);
        assert(texts(tail@) =~= before.push(l).skip(1));
    }
}

/// The output tail never grows past `LOG_LINES`, and always ends with the
/// newest line.
pub proof fn lemma_log_bounded(before: Seq<Seq<char>>, line: Seq<char>)
    requires
        before.len() <= LOG_LINES,
    ensures
        ({
            let after = if before.len() < LOG_LINES {
                before.push(line)
            } else {
                before.push(line).skip(1)
            };
            &&& after.len() <= LOG_LINES
            &&& after.last() == line
        }),
{
}

/// A process left running by an earlier session: not this process, and its
/// command line names the engine binary, our port and our models folder.
pub open spec fn orphan_spec(pid: u32, me: u32, cmdline: Seq<char>, models_dir: Seq<char>) -> bool {
    pid != me && contains(cmdline, "ace-server"@) && contains(cmdline, "--port 8422"@) && contains(
        cmdline,
        models_dir,
    )
}

/// Whether process `pid`, whose command line (arguments joined by spaces) is
/// `cmdline`, is an engine stranded by an earlier run that should be stopped.
/// `me` is this process.
pub fn is_orphan(pid: u32, me: u32, cmdline: &str, models_dir: &str) -> (r: bool)
    ensures
        r == orphan_spec(pid, me, cmdline@, models_dir@),
{
    if pid == me {
        return false;
    }
    let c = chars_of(cmdline);
    text_contains(&c, "ace-server") && text_contains(&c, "--port 8422") && crate::text::has_infix(
        &c,
        &chars_of(models_dir),
    )
}

/// What a startup check found, and what follows.
#[derive(Debug)]
pub enum StartupStep {
    /// The engine answered its health check.
    Ready,
    /// The process exited while starting.
    Exited,
    /// It has not answered within the startup allowance.
    TimedOut,
    /// Wait and look again.
    Wait,
    /// The process could not be launched at all.
    NotSpawned,
}

/// The state a startup check that found `step` leaves.
pub open spec fn state_after(step: StartupStep) -> EngineState {
    match step {
        StartupStep::Ready => EngineState::Ready,
        StartupStep::Exited => EngineState::Crashed,
        StartupStep::TimedOut => EngineState::Crashed,
        StartupStep::Wait => EngineState::Starting,
        StartupStep::NotSpawned => EngineState::Stopped,
    }
}

/// The engine's state once a startup check has found `step`: ready when it
/// answered, crashed when it exited or never answered in time, still starting
/// while it is waited on, and stopped when it was never launched.
pub fn startup_state(step: &StartupStep) -> (s: EngineState)
    ensures
        s == state_after(*step),
        step is Ready ==> s == EngineState::Ready,
        step is Exited || step is TimedOut ==> s == EngineState::Crashed,
        step is Wait ==> s == EngineState::Starting,
        step is NotSpawned ==> s == EngineState::Stopped,
{
    match step {
        StartupStep::Ready => EngineState::Ready,
        StartupStep::Exited => EngineState::Crashed,
        StartupStep::TimedOut => EngineState::Crashed,
        StartupStep::Wait => EngineState::Starting,
        StartupStep::NotSpawned => EngineState::Stopped,
    }
}

/// What one startup check finds.
pub open spec fn step_spec(exited: bool, healthy: bool, past_deadline: bool) -> StartupStep {
    if past_deadline {
        StartupStep::TimedOut
    } else if exited {
        StartupStep::Exited
    } else if healthy {
        StartupStep::Ready
    } else {
        StartupStep::Wait
    }
}

/// One check while the engine starts: past the deadline it has timed out;
/// before it, an exit is reported first, then a healthy answer.
pub fn startup_step(exited: bool, healthy: bool, past_deadline: bool) -> (s: StartupStep)
    ensures
        s == step_spec(exited, healthy, past_deadline),
        past_deadline ==> s is TimedOut,
        !past_deadline && exited ==> s is Exited,
        !past_deadline && !exited && healthy ==> s is Ready,
        !past_deadline && !exited && !healthy ==> s is Wait,
{
    if past_deadline {
        StartupStep::TimedOut
    } else if exited {
        StartupStep::Exited
    } else if healthy {
        StartupStep::Ready
    } else {
        StartupStep::Wait
    }
}

/// The steps that startup checks find, each check being (exited, healthy,
/// past the deadline).
pub open spec fn steps_of(checks: Seq<(bool, bool, bool)>) -> Seq<StartupStep> {
    checks.map_values(|c: (bool, bool, bool)| step_spec(c.0, c.1, c.2))
}

/// The state a start settles in after the checks `steps`: the state the
/// first check that is not a wait leaves, or still starting if all wait.
pub open spec fn settled(steps: Seq<StartupStep>) -> EngineState
    decreases steps.len(),
{
    if steps.len() == 0 {
        EngineState::Starting
    } else if steps[0] is Wait {
        settled(steps.skip(1))
    } else {
        state_after(steps[0])
    }
}

/// How a start request ends, from the engine's state before it, whether the
/// process could be launched, and what the startup checks found: the state
/// it leaves, and `Some(ok)` once it has returned (`None` while it waits).
/// A start while the engine is up or starting returns at once.
pub open spec fn start_outcome(prior: EngineState, launched: bool, checks: Seq<(bool, bool, bool)>) -> (
    EngineState,
    Option<bool>,
) {
    if prior is Ready || prior is Starting {
        (prior, Some(true))
    } else if !launched {
        (EngineState::Stopped, Some(false))
    } else {
        let st = settled(steps_of(checks));
        (st, if st is Starting {
            None
        } else {
            Some(st is Ready)
        })
    }
}

proof fn lemma_settled(steps: Seq<StartupStep>)
    ensures
        settled(steps) is Ready ==> exists|i: int| 0 <= i < steps.len() && (#[trigger] steps[i]) is Ready,
        (forall|i: int| 0 <= i < steps.len() ==> !((#[trigger] steps[i]) is NotSpawned)) ==> !(settled(
            steps,
        ) is Stopped),
    decreases steps.len(),
{
    if steps.len() > 0 && steps[0] is Wait {
        let rest = steps.skip(1);
        lemma_settled(rest);
        if settled(rest) is Ready {
            let i = choose|i: int| 0 <= i < rest.len() && (#[trigger] rest[i]) is Ready;
            assert(steps[i + 1] == rest[i]);
        }
        if forall|i: int| 0 <= i < steps.len() ==> !((#[trigger] steps[i]) is NotSpawned) {
            assert forall|i: int| 0 <= i < rest.len() implies !((#[trigger] rest[i]) is NotSpawned) by {
                assert(rest[i] == steps[i + 1]);
            }
        }
    }
}

/// A start request succeeds only with the engine ready, and only after a
/// check that found it answering its health check before the deadline and
/// still running; one that fails leaves the engine neither ready nor
/// starting; and one made while the engine is ready succeeds without
/// launching anything. (A request made while another start is under way
/// returns at once with the engine still starting.)
pub proof fn lemma_start_outcome(prior: EngineState, launched: bool, checks: Seq<(bool, bool, bool)>)
    ensures
        ({
            let (st, done) = start_outcome(prior, launched, checks);
            &&& done == Some(true) && !(prior is Starting) ==> st is Ready
            &&& done == Some(true) && !(prior is Ready || prior is Starting) ==> exists|i: int|
                0 <= i < checks.len() && !(#[trigger] checks[i]).0 && checks[i].1 && !checks[i].2
            &&& done == Some(false) ==> !(st is Ready) && !(st is Starting)
            &&& prior is Ready ==> done == Some(true) && st == prior
        }),
{
    let steps = steps_of(checks);
    lemma_settled(steps);
    let (st, done) = start_outcome(prior, launched, checks);
    if done == Some(true) && !(prior is Ready || prior is Starting) {
        let i = choose|i: int| 0 <= i < steps.len() && (#[trigger] steps[i]) is Ready;
        assert(steps[i] == step_spec(checks[i].0, checks[i].1, checks[i].2));
    }
    if launched && !(prior is Ready || prior is Starting) {
        assert forall|i: int| 0 <= i < steps.len() implies !((#[trigger] steps[i]) is NotSpawned) by {
            assert(steps[i] == step_spec(checks[i].0, checks[i].1, checks[i].2));
        }
    }
}

} // verus!
