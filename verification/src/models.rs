//! The model tiers a first run can download, the tier a GPU's memory
//! suggests, and which of a tier's files are still to be fetched.

use vstd::prelude::*;
use crate::engine::{model_kind, names_of_kind, texts, AvailableModels, ModelKind};
use crate::text::{chars_of, contains, ends_with, parse_u64, parse_u64_spec, starts_with, string_of, trim, trimmed};

verus! {

/// One file of a model tier.
pub struct ModelFile {
    pub name: String,
    /// Approximate size in bytes, for progress before the download starts.
    pub bytes: u64,
    pub role: &'static str,
}

/// How much model a machine gets, by its graphics memory.
#[derive(Debug, Clone, Copy, PartialEq, Eq, Structural)]
pub enum Tier {
    /// Runs on about 4 GB of VRAM, or on the CPU. Weakest lyrics.
    Light,
    /// About 6 GB. A good middle.
    Standard,
    /// About 8 GB or more.
    Best,
}

/// A file of a tier as plain values: name, approximate bytes, role.
pub type FileEntry = (Seq<char>, u64, Seq<char>);

/// The files a tier downloads, in download order.
pub open spec fn tier_files(t: Tier) -> Seq<FileEntry> {
    let vae = ("vae-BF16.gguf"@, 338_000_000u64, "decoder"@);
    let enc = ("Qwen3-Embedding-0.6B-Q8_0.gguf"@, 784_000_000u64, "text encoder"@);
    match t {
        Tier::Light => seq![
            vae,
            enc,
            ("acestep-5Hz-lm-0.6B-Q8_0.gguf"@, 745_000_000u64, "songwriter"@),
            ("acestep-v15-turbo-Q6_K.gguf"@, 2_070_000_000u64, "sound model"@),
        ],
        Tier::Standard => seq![
            vae,
            enc,
            ("acestep-5Hz-lm-1.7B-Q8_0.gguf"@, 2_040_000_000u64, "songwriter"@),
            ("acestep-v15-turbo-Q8_0.gguf"@, 2_680_000_000u64, "sound model"@),
            ("acestep-v15-sft-Q8_0.gguf"@, 2_680_000_000u64, "detailed sound model"@),
        ],
        Tier::Best => seq![
            vae,
            enc,
            ("acestep-5Hz-lm-4B-Q8_0.gguf"@, 4_680_000_000u64, "songwriter"@),
            ("acestep-v15-turbo-Q8_0.gguf"@, 2_680_000_000u64, "sound model"@),
            ("acestep-v15-sft-Q8_0.gguf"@, 2_680_000_000u64, "detailed sound model"@),
        ],
    }
}

/// A file as plain values.
pub open spec fn file_entry(f: ModelFile) -> FileEntry {
    (f.name@, f.bytes, f.role@)
}

/// Files as plain values.
pub open spec fn file_entries(v: Seq<ModelFile>) -> Seq<FileEntry> {
    v.map_values(|f: ModelFile| file_entry(f))
}

/// The summed sizes of `files`.
pub open spec fn sum_bytes(files: Seq<FileEntry>) -> nat
    decreases files.len(),
{
    if files.len() == 0 {
        0
    } else {
        sum_bytes(files.drop_last()) + (files.last().1 as nat)
    }
}

fn mk(name: &str, bytes: u64, role: &'static str) -> (f: ModelFile)
    ensures
        file_entry(f) == (name@, bytes, role@),
{
    let n = chars_of(name);
    ModelFile { name: string_of(&n), bytes, role }
}

impl Tier {
    /// The tier's name.
    pub fn label(self) -> (l: &'static str)
        ensures
            l@ == match self {
                Tier::Light => "Light"@,
                Tier::Standard => "Standard"@,
                Tier::Best => "Best"@,
            },
    {
        match self {
            Tier::Light => "Light",
            Tier::Standard => "Standard",
            Tier::Best => "Best",
        }
    }

    /// What a person actually needs to know to choose.
    pub fn description(self) -> (d: &'static str)
        ensures
            d@ == match self {
                Tier::Light =>
                    "Works on almost any computer, including without a graphics card. Songs take longer and the words are simpler."@,
                Tier::Standard => "A good balance. Needs a graphics card with about 6 GB."@,
                Tier::Best =>
                    "The best words and the fullest sound. Needs a graphics card with 8 GB or more."@,
            },
    {
        match self {
            Tier::Light =>
                "Works on almost any computer, including without a graphics card. Songs take longer and the words are simpler.",
            Tier::Standard => "A good balance. Needs a graphics card with about 6 GB.",
            Tier::Best =>
                "The best words and the fullest sound. Needs a graphics card with 8 GB or more.",
        }
    }

    /// The files this tier downloads.
    pub fn files(self) -> (v: Vec<ModelFile>)
        ensures
            file_entries(v@) == tier_files(self),
    {
        let mut v: Vec<ModelFile> = Vec::new();
        v.push(mk("vae-BF16.gguf", 338_000_000, "decoder"));
        v.push(mk("Qwen3-Embedding-0.6B-Q8_0.gguf", 784_000_000, "text encoder"));
        match self {
            Tier::Light => {
                v.push(mk("acestep-5Hz-lm-0.6B-Q8_0.gguf", 745_000_000, "songwriter"));
                v.push(mk("acestep-v15-turbo-Q6_K.gguf", 2_070_000_000, "sound model"));
            },
            Tier::Standard => {
                v.push(mk("acestep-5Hz-lm-1.7B-Q8_0.gguf", 2_040_000_000, "songwriter"));
                v.push(mk("acestep-v15-turbo-Q8_0.gguf", 2_680_000_000, "sound model"));
                v.push(mk("acestep-v15-sft-Q8_0.gguf", 2_680_000_000, "detailed sound model"));
            },
            Tier::Best => {
                v.push(mk("acestep-5Hz-lm-4B-Q8_0.gguf", 4_680_000_000, "songwriter"));
                v.push(mk("acestep-v15-turbo-Q8_0.gguf", 2_680_000_000, "sound model"));
                v.push(mk("acestep-v15-sft-Q8_0.gguf", 2_680_000_000, "detailed sound model"));
            },
        }
        assert(file_entries(v@) =~= tier_files(self));
        v
    }

    /// The tier's total download size.
    pub fn total_bytes(self) -> (n: u64)
        ensures
            n == sum_bytes(tier_files(self)),
    {
        let files = self.files();
        let ghost fs = tier_files(self);
        let mut total: u64 = 0;
        let mut i: usize = 0;
        proof {
            lemma_file_sizes(self);
        }
        while i < files.len()
            invariant
                file_entries(files@) == fs,
                fs == tier_files(self),
                fs.len() <= 5,
                forall|k: int| 0 <= k < fs.len() ==> (#[trigger] fs[k]).1 <= 5_000_000_000,
                i <= files@.len(),
                total == sum_bytes(fs.take(i as int)),
                total <= i * 5_000_000_000,
            decreases files.len() - i,
        {
            assert(fs[i as int] == file_entry(files@[i as int]));
            assert(fs.take(i + 1).drop_last() =~= fs.take(i as int));
            total = total + files[i].bytes;
            i += 1;
        }
        assert(fs.take(fs.len() as int) =~= fs);
        total
    }
}

proof fn lemma_file_sizes(t: Tier)
    ensures
        tier_files(t).len() <= 5,
        forall|k: int| 0 <= k < tier_files(t).len() ==> (#[trigger] tier_files(t)[k]).1 <= 5_000_000_000,
{
}

/// The sums the tiers' sizes come to.
proof fn lemma_tier_totals()
    ensures
        sum_bytes(tier_files(Tier::Light)) == 3_937_000_000,
        sum_bytes(tier_files(Tier::Standard)) == 8_522_000_000,
        sum_bytes(tier_files(Tier::Best)) == 11_162_000_000,
{
    reveal_with_fuel(sum_bytes, 6);
    let l = tier_files(Tier::Light);
    assert(l.drop_last().drop_last().drop_last().drop_last() =~= Seq::<FileEntry>::empty());
    let s = tier_files(Tier::Standard);
    assert(s.drop_last().drop_last().drop_last().drop_last().drop_last() =~= Seq::<FileEntry>::empty());
    let b = tier_files(Tier::Best);
    assert(b.drop_last().drop_last().drop_last().drop_last().drop_last() =~= Seq::<FileEntry>::empty());
}

/// Bigger tiers download more: Light, then Standard, then Best, each over
/// 3 GB in all.
pub proof fn lemma_tiers_grow()
    ensures
        sum_bytes(tier_files(Tier::Light)) < sum_bytes(tier_files(Tier::Standard)),
        sum_bytes(tier_files(Tier::Standard)) < sum_bytes(tier_files(Tier::Best)),
        sum_bytes(tier_files(Tier::Light)) > 3_000_000_000,
{
    lemma_tier_totals();
}

/// Every tier has a decoder, a text encoder, a songwriter and a sound model.
pub proof fn lemma_every_tier_complete(t: Tier)
    ensures
        exists|i: int| 0 <= i < tier_files(t).len() && (#[trigger] tier_files(t)[i]).2 == "decoder"@,
        exists|i: int| 0 <= i < tier_files(t).len() && (#[trigger] tier_files(t)[i]).2 == "text encoder"@,
        exists|i: int| 0 <= i < tier_files(t).len() && (#[trigger] tier_files(t)[i]).2 == "songwriter"@,
        exists|i: int| 0 <= i < tier_files(t).len() && (#[trigger] tier_files(t)[i]).2 == "sound model"@,
{
    let f = tier_files(t);
    assert(f[0].2 == "decoder"@);
    assert(f[1].2 == "text encoder"@);
    assert(f[2].2 == "songwriter"@);
    assert(f[3].2 == "sound model"@);
}

/// Only the tiers that ship the detailed (SFT) model can do stem work: the
/// Light tier downloads no file for it.
pub proof fn lemma_stem_work_needs_sft()
    ensures
        forall|i: int| 0 <= i < tier_files(Tier::Light).len() ==> (#[trigger] tier_files(Tier::Light)[i]).2 != "detailed sound model"@,
        tier_files(Tier::Standard)[4].2 == "detailed sound model"@,
        tier_files(Tier::Best)[4].2 == "detailed sound model"@,
{
    reveal_strlit("detailed sound model");
    reveal_strlit("decoder");
    reveal_strlit("text encoder");
    reveal_strlit("songwriter");
    reveal_strlit("sound model");
    let f = tier_files(Tier::Light);
    assert forall|i: int| 0 <= i < f.len() implies (#[trigger] f[i]).2 != "detailed sound model"@ by {
        assert(f[i].2.len() != "detailed sound model"@.len());
    }
}

/// The tier a graphics card with `vram_mb` megabytes suggests: Best from
/// 7800, Standard from 5600, Light below; Standard when the memory is
/// unknown, since a download that does not run is worse than one that is
/// merely not the best available.
pub fn suggested_tier(vram_mb: Option<u64>) -> (t: Tier)
    ensures
        t == match vram_mb {
            Some(m) => if m >= 7800 {
                Tier::Best
            } else if m >= 5600 {
                Tier::Standard
            } else {
                Tier::Light
            },
            None => Tier::Standard,
        },
{
    match vram_mb {
        Some(m) => if m >= 7800 {
            Tier::Best
        } else if m >= 5600 {
            Tier::Standard
        } else {
            Tier::Light
        },
        None => Tier::Standard,
    }
}

/// The largest whole number of megabytes among the readable reports, where a
/// report is a `mem_info_vram_total` file's text: a byte count, perhaps with
/// surrounding whitespace.
pub open spec fn largest_vram(reports: Seq<Seq<char>>) -> nat
    decreases reports.len(),
{
    if reports.len() == 0 {
        0
    } else {
        let before = largest_vram(reports.drop_last());
        match parse_u64_spec(trim(reports.last())) {
            Some(b) => if b / 1048576 > before {
                (b / 1048576) as nat
            } else {
                before
            },
            None => before,
        }
    }
}

/// The memory found is the largest card's: at least the megabytes of every
/// report that reads as a byte count, and, when not zero, exactly those of
/// one of them. A small integrated card listed first does not hide a large
/// one listed after it.
pub proof fn lemma_vram_is_the_largest_report(reports: Seq<Seq<char>>)
    ensures
        forall|k: int|
            0 <= k < reports.len() ==> (parse_u64_spec(trim(#[trigger] reports[k])) matches Some(b)
                ==> b / 1048576 <= largest_vram(reports)),
        largest_vram(reports) > 0 ==> exists|k: int|
            0 <= k < reports.len() && (parse_u64_spec(trim(#[trigger] reports[k])) matches Some(b)
                && b / 1048576 == largest_vram(reports)),
    decreases reports.len(),
{
    if reports.len() > 0 {
        let p = reports.drop_last();
        lemma_vram_is_the_largest_report(p);
        assert forall|k: int|
            0 <= k < reports.len() implies (parse_u64_spec(trim(#[trigger] reports[k])) matches Some(b)
            ==> b / 1048576 <= largest_vram(reports)) by {
            if k < p.len() {
                assert(reports[k] == p[k]);
            }
        }
        if largest_vram(reports) > 0 {
            if largest_vram(reports) == largest_vram(p) {
                let k = choose|k: int|
                    0 <= k < p.len() && (parse_u64_spec(trim(#[trigger] p[k])) matches Some(b) && b
                        / 1048576 == largest_vram(p));
                assert(reports[k] == p[k]);
            } else {
                assert(reports[reports.len() - 1] == reports.last());
            }
        }
    }
}

/// The card's memory in megabytes from the drivers' reports, if any report
/// gives a non-zero amount.
pub fn vram_mb_from_reports(reports: &Vec<String>) -> (mb: Option<u64>)
    ensures
        mb == (if largest_vram(reports@.map_values(|s: String| s@)) > 0 {
            Some(largest_vram(reports@.map_values(|s: String| s@)) as u64)
        } else {
            None
        }),
{
    let ghost t = reports@.map_values(|s: String| s@);
    let mut best: u64 = 0;
    let mut i: usize = 0;
    while i < reports.len()
        invariant
            t == reports@.map_values(|s: String| s@),
            i <= reports@.len(),
            best as nat == largest_vram(t.take(i as int)),
        decreases reports.len() - i,
    {
        assert(t.take(i + 1).drop_last() =~= t.take(i as int));
        assert(t.take(i + 1).last() == reports@[i as int]@);
        let v = chars_of(reports[i].as_str());
        let tv = trimmed(&v);
        match parse_u64(&tv) {
            Some(b) => {
                let mb = b / 1024 / 1024;
                assert(b / 1024 / 1024 == b / 1048576) by (nonlinear_arith);
                if mb > best {
                    best = mb;
                }
            },
            None => {},
        }
        i += 1;
    }
    assert(t.take(t.len() as int) =~= t);
    if best > 0 {
        Some(best)
    } else {
        None
    }
}

/// GGUF files start with the magic `GGUF`.
pub open spec fn gguf_magic() -> Seq<u8> {
    seq![71u8, 71u8, 85u8, 70u8]
}

/// Whether the first bytes of a file (up to four) mark a model file: a file
/// shorter than four bytes cannot be one.
pub fn is_gguf_header(head: &[u8]) -> (ok: bool)
    ensures
        ok == (head@.len() >= 4 && head@.take(4) == gguf_magic()),
{
    if head.len() < 4 {
        return false;
    }
    let ok = head[0] == 71 && head[1] == 71 && head[2] == 85 && head[3] == 70;
    if ok {
        assert(head@.take(4) =~= gguf_magic());
    } else {
        assert(head@.take(4) != gguf_magic()) by {
            if head@.take(4) == gguf_magic() {
                assert(head@.take(4)[0] == head@[0]);
                assert(head@.take(4)[1] == head@[1]);
                assert(head@.take(4)[2] == head@[2]);
                assert(head@.take(4)[3] == head@[3]);
            }
        }
    }
    ok
}

/// The entries of `files` not marked usable, in order; `usable[i]` says
/// whether the `i`-th file is on disk with a valid header, and a file with no
/// mark counts as missing.
pub open spec fn unusable(files: Seq<FileEntry>, usable: Seq<bool>) -> Seq<FileEntry>
    decreases files.len(),
{
    if files.len() == 0 {
        Seq::empty()
    } else {
        let i = files.len() - 1;
        let before = unusable(files.drop_last(), usable);
        if i < usable.len() && usable[i] {
            before
        } else {
            before.push(files.last())
        }
    }
}

/// Which files a tier is still missing, given which of its files are usable.
pub fn missing_files(tier: Tier, usable: &Vec<bool>) -> (v: Vec<ModelFile>)
    ensures
        file_entries(v@) == unusable(tier_files(tier), usable@),
{
    let files = tier.files();
    let ghost fs = tier_files(tier);
    let mut out: Vec<ModelFile> = Vec::new();
    let mut rest = files;
    let mut taken: Vec<ModelFile> = Vec::new();
    while rest.len() > 0
        invariant
            file_entries(taken@) + file_entries(rest@) == fs,
            file_entries(out@) == unusable(file_entries(taken@), usable@),
        decreases rest.len(),
    {
        let f = rest.remove(0);
        let k = taken.len();
        let ghost fe = file_entry(f);
        let keep = k < usable.len() && usable[k];
        let ghost taken_before = file_entries(taken@);
        if !keep {
            let c = chars_of(f.name.as_str());
            out.push(ModelFile { name: string_of(&c), bytes: f.bytes, role: f.role });
        }
        taken.push(f);
        assert(file_entries(taken@).drop_last() =~= taken_before);
        assert(file_entries(taken@).last() == fe);
        assert(file_entries(taken@) + file_entries(rest@) =~= fs);
        assert(file_entries(out@) =~= unusable(file_entries(taken@), usable@));
    }
    out
}

/// Progress of a tier download, as reported to the UI.
pub struct DownloadProgress {
    pub file: String,
    pub role: &'static str,
    pub file_index: usize,
    pub file_count: usize,
    pub downloaded: u64,
    pub total: u64,
}

// ---------------------------------------------------------------- downloading

/// Whether a model file on disk counts as present: it exists with a valid
/// header and, when the server's length is known, has exactly that length.
/// Offline, a file with a valid header is used as it is.
pub fn already_complete(local_len: Option<u64>, header_ok: bool, remote_len: Option<u64>) -> (r: bool)
    ensures
        r == (local_len is Some && header_ok && match remote_len {
            Some(n) => local_len->0 == n,
            None => true,
        }),
{
    match local_len {
        None => false,
        Some(l) => {
            if !header_ok {
                false
            } else {
                match remote_len {
                    Some(n) => l == n,
                    None => true,
                }
            }
        },
    }
}

/// The `Range` header that resumes a partial download of `have` bytes; none
/// when there is nothing to resume.
pub fn resume_range(have: u64) -> (r: Option<String>)
    ensures
        have == 0 ==> r is None,
        have > 0 ==> (r matches Some(h) && h@ == "bytes="@ + crate::text::decimal(have as nat)
            + seq!['-']),
{
    if have == 0 {
        None
    } else {
        let mut v = chars_of("bytes=");
        crate::text::append_chars(&mut v, &crate::text::decimal_chars(have));
        v.push('-');
        Some(string_of(&v))
    }
}

/// The size a download will reach: what the server says remains plus what is
/// already on disk, or the expected size when the server does not say.
pub fn download_total(content_length: Option<u64>, have: u64, expected: u64) -> (t: u64)
    requires
        content_length matches Some(l) ==> l + have <= u64::MAX,
    ensures
        t == match content_length {
            Some(l) => (l + have) as u64,
            None => expected,
        },
{
    match content_length {
        Some(l) => l + have,
        None => expected,
    }
}

/// Bytes between progress reports: every few megabytes, not every chunk.
pub const REPORT_EVERY: u64 = 4194304;

/// After `n` more bytes arrive with `since` unreported, whether to report now
/// and what remains unreported.
pub fn progress_step(since: u64, n: u64) -> (r: (bool, u64))
    requires
        since + n <= u64::MAX,
    ensures
        r.0 == (since + n > REPORT_EVERY),
        r.0 ==> r.1 == 0,
        !r.0 ==> r.1 == since + n,
{
    let s = since + n;
    if s > REPORT_EVERY {
        (true, 0)
    } else {
        (false, s)
    }
}

/// The progress report for file `index` of `count`.
pub fn progress(file: &ModelFile, index: usize, count: usize, downloaded: u64, total: u64) -> (p: DownloadProgress)
    ensures
        p.file@ == file.name@,
        p.role == file.role,
        p.file_index == index,
        p.file_count == count,
        p.downloaded == downloaded,
        p.total == total,
{
    DownloadProgress {
        file: string_of(&chars_of(file.name.as_str())),
        role: file.role,
        file_index: index,
        file_count: count,
        downloaded,
        total,
    }
}

// ---------------------------------------------------------------- what a tier installs

/// `c` occurs nowhere in `s` from `i` on.
spec fn lacks_from(s: Seq<char>, c: char, i: int) -> bool
    decreases s.len() - i,
{
    if i < 0 || i >= s.len() {
        true
    } else {
        s[i] != c && lacks_from(s, c, i + 1)
    }
}

proof fn lemma_lacks(s: Seq<char>, c: char, i: int, k: int)
    requires
        0 <= i <= k < s.len(),
        lacks_from(s, c, i),
    ensures
        s[k] != c,
    decreases k - i,
{
    if i < k {
        lemma_lacks(s, c, i + 1, k);
    }
}

/// A text lacking a character of `p` does not contain `p`.
proof fn lemma_lacks_no_contains(s: Seq<char>, p: Seq<char>, c: char, j: int)
    requires
        lacks_from(s, c, 0),
        0 <= j < p.len(),
        p[j] == c,
    ensures
        !contains(s, p),
{
    if contains(s, p) {
        let i = choose|i: int| 0 <= i && i + p.len() <= s.len() && #[trigger] s.subrange(i, i + p.len()) == p;
        assert(s.subrange(i, i + p.len())[j] == s[i + j]);
        lemma_lacks(s, c, 0, i + j);
    }
}

proof fn lemma_has(s: Seq<char>, p: Seq<char>, i: int)
    requires
        0 <= i,
        i + p.len() <= s.len(),
        s.subrange(i, i + p.len()) == p,
    ensures
        contains(s, p),
{
}

proof fn lemma_vae_kind()
    ensures
        model_kind("vae-BF16.gguf"@) == Some(ModelKind::Vae),
{
    reveal_strlit("vae-BF16.gguf");
    reveal_strlit(".gguf");
    reveal_strlit("-lm-");
    reveal_strlit("Qwen3-Embedding");
    reveal_strlit("vae-");
    let n = "vae-BF16.gguf"@;
    assert(n.skip(n.len() - 5) =~= ".gguf"@);
    assert(lacks_from(n, 'l', 0)) by {
        reveal_with_fuel(lacks_from, 14);
    }
    lemma_lacks_no_contains(n, "-lm-"@, 'l', 1);
    assert(n[0] != "Qwen3-Embedding"@[0]);
    assert(n.take(4) =~= "vae-"@);
}

proof fn lemma_embedding_kind()
    ensures
        model_kind("Qwen3-Embedding-0.6B-Q8_0.gguf"@) == Some(ModelKind::Embedding),
{
    reveal_strlit("Qwen3-Embedding-0.6B-Q8_0.gguf");
    reveal_strlit(".gguf");
    reveal_strlit("-lm-");
    reveal_strlit("Qwen3-Embedding");
    let n = "Qwen3-Embedding-0.6B-Q8_0.gguf"@;
    assert(n.skip(n.len() - 5) =~= ".gguf"@);
    assert(lacks_from(n, 'l', 0)) by {
        reveal_with_fuel(lacks_from, 31);
    }
    lemma_lacks_no_contains(n, "-lm-"@, 'l', 1);
    assert(n.take(15) =~= "Qwen3-Embedding"@);
}

proof fn lemma_lm_kind(n: Seq<char>)
    requires
        n.len() >= 20,
        n.take(15) =~= "acestep-5Hz-lm-"@,
        n.skip(n.len() - 5) =~= ".gguf"@,
    ensures
        model_kind(n) == Some(ModelKind::Lm),
{
    reveal_strlit("acestep-5Hz-lm-");
    reveal_strlit("-lm-");
    reveal_strlit(".gguf");
    assert(n.subrange(11, 15) =~= "-lm-"@) by {
        assert(n.subrange(11, 15) =~= n.take(15).subrange(11, 15));
    }
    lemma_has(n, "-lm-"@, 11);
}

proof fn lemma_lm_kinds()
    ensures
        model_kind("acestep-5Hz-lm-0.6B-Q8_0.gguf"@) == Some(ModelKind::Lm),
        model_kind("acestep-5Hz-lm-1.7B-Q8_0.gguf"@) == Some(ModelKind::Lm),
        model_kind("acestep-5Hz-lm-4B-Q8_0.gguf"@) == Some(ModelKind::Lm),
{
    reveal_strlit("acestep-5Hz-lm-0.6B-Q8_0.gguf");
    reveal_strlit("acestep-5Hz-lm-1.7B-Q8_0.gguf");
    reveal_strlit("acestep-5Hz-lm-4B-Q8_0.gguf");
    reveal_strlit("acestep-5Hz-lm-");
    reveal_strlit(".gguf");
    let a = "acestep-5Hz-lm-0.6B-Q8_0.gguf"@;
    let b = "acestep-5Hz-lm-1.7B-Q8_0.gguf"@;
    let c = "acestep-5Hz-lm-4B-Q8_0.gguf"@;
    assert(a.take(15) =~= "acestep-5Hz-lm-"@);
    assert(a.skip(a.len() - 5) =~= ".gguf"@);
    lemma_lm_kind(a);
    assert(b.take(15) =~= "acestep-5Hz-lm-"@);
    assert(b.skip(b.len() - 5) =~= ".gguf"@);
    lemma_lm_kind(b);
    assert(c.take(15) =~= "acestep-5Hz-lm-"@);
    assert(c.skip(c.len() - 5) =~= ".gguf"@);
    lemma_lm_kind(c);
}

proof fn lemma_turbo_kind(n: Seq<char>)
    requires
        n.len() >= 22,
        n.take(17) =~= "acestep-v15-turbo"@,
        n.skip(n.len() - 5) =~= ".gguf"@,
        lacks_from(n, 'l', 0),
    ensures
        model_kind(n) == Some(ModelKind::DitTurbo),
{
    reveal_strlit("acestep-v15-turbo");
    reveal_strlit("-lm-");
    reveal_strlit(".gguf");
    reveal_strlit("turbo");
    reveal_strlit("Qwen3-Embedding");
    reveal_strlit("vae-");
    lemma_lacks_no_contains(n, "-lm-"@, 'l', 1);
    assert(n[0] == n.take(17)[0]);
    assert(n[0] != "Qwen3-Embedding"@[0]);
    assert(n[0] != "vae-"@[0]);
    assert(n.take(15) != "Qwen3-Embedding"@) by {
        assert(n.take(15)[0] == n[0]);
    }
    assert(n.take(4) != "vae-"@) by {
        assert(n.take(4)[0] == n[0]);
    }
    assert(n.subrange(12, 17) =~= "turbo"@) by {
        assert(n.subrange(12, 17) =~= n.take(17).subrange(12, 17));
    }
    lemma_has(n, "turbo"@, 12);
}

proof fn lemma_turbo_kinds()
    ensures
        model_kind("acestep-v15-turbo-Q6_K.gguf"@) == Some(ModelKind::DitTurbo),
        model_kind("acestep-v15-turbo-Q8_0.gguf"@) == Some(ModelKind::DitTurbo),
{
    reveal_strlit("acestep-v15-turbo-Q6_K.gguf");
    reveal_strlit("acestep-v15-turbo-Q8_0.gguf");
    reveal_strlit("acestep-v15-turbo");
    reveal_strlit(".gguf");
    let a = "acestep-v15-turbo-Q6_K.gguf"@;
    let b = "acestep-v15-turbo-Q8_0.gguf"@;
    assert(a.take(17) =~= "acestep-v15-turbo"@);
    assert(a.skip(a.len() - 5) =~= ".gguf"@);
    assert(lacks_from(a, 'l', 0)) by {
        reveal_with_fuel(lacks_from, 28);
    }
    lemma_turbo_kind(a);
    assert(b.take(17) =~= "acestep-v15-turbo"@);
    assert(b.skip(b.len() - 5) =~= ".gguf"@);
    assert(lacks_from(b, 'l', 0)) by {
        reveal_with_fuel(lacks_from, 28);
    }
    lemma_turbo_kind(b);
}

proof fn lemma_sft_kind()
    ensures
        model_kind("acestep-v15-sft-Q8_0.gguf"@) == Some(ModelKind::DitSft),
{
    reveal_strlit("acestep-v15-sft-Q8_0.gguf");
    reveal_strlit(".gguf");
    reveal_strlit("-lm-");
    reveal_strlit("turbo");
    reveal_strlit("sft");
    reveal_strlit("Qwen3-Embedding");
    reveal_strlit("vae-");
    let n = "acestep-v15-sft-Q8_0.gguf"@;
    assert(n.skip(n.len() - 5) =~= ".gguf"@);
    assert(lacks_from(n, 'l', 0) && lacks_from(n, 'r', 0)) by {
        reveal_with_fuel(lacks_from, 26);
    }
    lemma_lacks_no_contains(n, "-lm-"@, 'l', 1);
    lemma_lacks_no_contains(n, "turbo"@, 'r', 2);
    assert(n.take(15) != "Qwen3-Embedding"@) by {
        assert(n.take(15)[0] == n[0]);
    }
    assert(n.take(4) != "vae-"@) by {
        assert(n.take(4)[0] == n[0]);
    }
    assert(n.subrange(12, 15) =~= "sft"@);
    lemma_has(n, "sft"@, 12);
}

/// The file names a tier downloads, in order.
pub open spec fn tier_names(t: Tier) -> Seq<Seq<char>> {
    tier_files(t).map_values(|f: FileEntry| f.0)
}

/// A tier's files, sorted by role the way the engine's models folder is,
/// give every role a complete install needs; the detailed (SFT) model, which
/// stem work needs, is among them for every tier but Light.
pub proof fn lemma_tier_models(t: Tier)
    ensures
        names_of_kind(tier_names(t), ModelKind::Lm).len() > 0,
        names_of_kind(tier_names(t), ModelKind::Embedding).len() > 0,
        names_of_kind(tier_names(t), ModelKind::Vae).len() > 0,
        names_of_kind(tier_names(t), ModelKind::DitTurbo).len() > 0,
        (names_of_kind(tier_names(t), ModelKind::DitSft).len() > 0) == (t != Tier::Light),
{
    lemma_vae_kind();
    lemma_embedding_kind();
    lemma_lm_kinds();
    lemma_turbo_kinds();
    lemma_sft_kind();
    let n = tier_names(t);
    reveal_with_fuel(names_of_kind, 6);
    match t {
        Tier::Light => {
            assert(n =~= seq![
                "vae-BF16.gguf"@,
                "Qwen3-Embedding-0.6B-Q8_0.gguf"@,
                "acestep-5Hz-lm-0.6B-Q8_0.gguf"@,
                "acestep-v15-turbo-Q6_K.gguf"@,
            ]);
        },
        Tier::Standard => {
            assert(n =~= seq![
                "vae-BF16.gguf"@,
                "Qwen3-Embedding-0.6B-Q8_0.gguf"@,
                "acestep-5Hz-lm-1.7B-Q8_0.gguf"@,
                "acestep-v15-turbo-Q8_0.gguf"@,
                "acestep-v15-sft-Q8_0.gguf"@,
            ]);
        },
        Tier::Best => {
            assert(n =~= seq![
                "vae-BF16.gguf"@,
                "Qwen3-Embedding-0.6B-Q8_0.gguf"@,
                "acestep-5Hz-lm-4B-Q8_0.gguf"@,
                "acestep-v15-turbo-Q8_0.gguf"@,
                "acestep-v15-sft-Q8_0.gguf"@,
            ]);
        },
    }
}

/// Whether `names` holds a file of kind `k`: exactly when sorting them by
/// role leaves something under `k`.
proof fn lemma_kind_present(names: Seq<Seq<char>>, k: ModelKind)
    ensures
        (names_of_kind(names, k).len() > 0) == (exists|i: int|
            0 <= i < names.len() && model_kind(#[trigger] names[i]) == Some(k)),
    decreases names.len(),
{
    if names.len() > 0 {
        let p = names.drop_last();
        lemma_kind_present(p, k);
        if exists|i: int| 0 <= i < p.len() && model_kind(#[trigger] p[i]) == Some(k) {
            let i = choose|i: int| 0 <= i < p.len() && model_kind(#[trigger] p[i]) == Some(k);
            assert(names[i] == p[i]);
        }
        if exists|i: int| 0 <= i < names.len() && model_kind(#[trigger] names[i]) == Some(k) {
            let i = choose|i: int| 0 <= i < names.len() && model_kind(#[trigger] names[i]) == Some(k);
            if i < p.len() {
                assert(p[i] == names[i]);
            }
        }
    }
}

/// Two listings that hold the same file names hold a file of each kind alike.
proof fn lemma_same_files_same_kinds(a: Seq<Seq<char>>, b: Seq<Seq<char>>, k: ModelKind)
    requires
        forall|n: Seq<char>| a.contains(n) <==> b.contains(n),
    ensures
        (names_of_kind(a, k).len() > 0) == (names_of_kind(b, k).len() > 0),
{
    lemma_kind_present(a, k);
    lemma_kind_present(b, k);
    if exists|i: int| 0 <= i < a.len() && model_kind(#[trigger] a[i]) == Some(k) {
        let i = choose|i: int| 0 <= i < a.len() && model_kind(#[trigger] a[i]) == Some(k);
        assert(a.contains(a[i]));
        let j = choose|j: int| 0 <= j < b.len() && b[j] == a[i];
        assert(model_kind(b[j]) == Some(k));
    }
    if exists|i: int| 0 <= i < b.len() && model_kind(#[trigger] b[i]) == Some(k) {
        let i = choose|i: int| 0 <= i < b.len() && model_kind(#[trigger] b[i]) == Some(k);
        assert(b.contains(b[i]));
        let j = choose|j: int| 0 <= j < a.len() && a[j] == b[i];
        assert(model_kind(a[j]) == Some(k));
    }
}

/// The models found in a folder that holds exactly a tier's files, listed in
/// any order and sorted by role as `AvailableModels::from_names` does, are
/// complete, so `is_complete` holds, and support stem work, so
/// `supports_stems` holds, exactly when the tier is not Light.
pub proof fn lemma_tier_install(t: Tier, names: Seq<Seq<char>>, m: AvailableModels)
    requires
        forall|n: Seq<char>| names.contains(n) <==> tier_names(t).contains(n),
        texts(m.lm@) == names_of_kind(names, ModelKind::Lm),
        texts(m.embedding@) == names_of_kind(names, ModelKind::Embedding),
        texts(m.vae@) == names_of_kind(names, ModelKind::Vae),
        texts(m.dit_turbo@) == names_of_kind(names, ModelKind::DitTurbo),
        texts(m.dit_sft@) == names_of_kind(names, ModelKind::DitSft),
    ensures
        m.can_generate(),
        m.can_do_stems() == (t != Tier::Light),
{
    lemma_tier_models(t);
    let tn = tier_names(t);
    lemma_same_files_same_kinds(names, tn, ModelKind::Lm);
    lemma_same_files_same_kinds(names, tn, ModelKind::Embedding);
    lemma_same_files_same_kinds(names, tn, ModelKind::Vae);
    lemma_same_files_same_kinds(names, tn, ModelKind::DitTurbo);
    lemma_same_files_same_kinds(names, tn, ModelKind::DitSft);
    assert(texts(m.lm@).len() == m.lm@.len());
    assert(texts(m.embedding@).len() == m.embedding@.len());
    assert(texts(m.vae@).len() == m.vae@.len());
    assert(texts(m.dit_turbo@).len() == m.dit_turbo@.len());
    assert(texts(m.dit_sft@).len() == m.dit_sft@.len());
}

// ---------------------------------------------------------------- one file's transfer

/// Where the download of one file stands.
#[derive(Debug, Clone, Copy, PartialEq, Eq, Structural)]
pub struct Transfer {
    /// Bytes in the partial file so far, counting what an earlier run left.
    pub downloaded: u64,
    /// Bytes received since progress was last reported.
    pub since: u64,
    /// The server has sent everything; the file awaits its header check.
    pub ended: bool,
}

/// What happened while a file downloads.
#[derive(Debug, Clone, Copy, PartialEq, Eq, Structural)]
pub enum DownloadEvent {
    /// The user asked to stop.
    Stop,
    /// This many more bytes arrived and were appended to the partial file.
    Chunk(u64),
    /// The server has no more to send.
    End,
    /// The finished partial file's header was checked: a model file or not.
    Checked(bool),
}

/// What to do next.
#[derive(Debug, Clone, Copy, PartialEq, Eq, Structural)]
pub enum DownloadAction {
    /// Give up, leaving the partial file for a later run to resume.
    Abort,
    /// Carry on without telling anyone.
    Keep,
    /// Report this many bytes downloaded, and carry on.
    Report(u64),
    /// Check the header of the finished partial file.
    Verify,
    /// Move the partial file into place: the file is installed.
    Install,
    /// The file is damaged: fail without installing it.
    Reject,
}

/// A transfer of a file of which `have` bytes are already on disk.
pub open spec fn transfer_start(have: u64) -> Transfer {
    Transfer { downloaded: have, since: 0, ended: false }
}

/// One step of a transfer: a stop request always aborts; a chunk adds to the
/// count and is reported once more than `REPORT_EVERY` bytes went
/// unreported; the end asks for the header check; and only a good check of
/// an ended transfer installs the file. Events that do not fit the state
/// (bytes after the end, a check before it) change nothing.
pub open spec fn transfer_next(t: Transfer, e: DownloadEvent) -> (Transfer, DownloadAction) {
    match e {
        DownloadEvent::Stop => (t, DownloadAction::Abort),
        DownloadEvent::Chunk(n) => if t.ended {
            (t, DownloadAction::Keep)
        } else if t.since + n > REPORT_EVERY {
            let d = (t.downloaded + n) as u64;
            (Transfer { downloaded: d, since: 0, ended: false }, DownloadAction::Report(d))
        } else {
            (
                Transfer { downloaded: (t.downloaded + n) as u64, since: (t.since + n) as u64, ended: false },
                DownloadAction::Keep,
            )
        },
        DownloadEvent::End => (Transfer { ended: true, ..t }, DownloadAction::Verify),
        DownloadEvent::Checked(ok) => if !t.ended {
            (t, DownloadAction::Keep)
        } else if ok {
            (t, DownloadAction::Install)
        } else {
            (t, DownloadAction::Reject)
        },
    }
}

/// Whether `e` may follow `t` without a counter overflowing.
pub open spec fn transfer_fits(t: Transfer, e: DownloadEvent) -> bool {
    e matches DownloadEvent::Chunk(n) ==> t.ended || (t.downloaded + n <= u64::MAX && t.since + n
        <= u64::MAX)
}

/// Take one step of a transfer; see `transfer_next`.
pub fn transfer_step(t: Transfer, e: DownloadEvent) -> (r: (Transfer, DownloadAction))
    requires
        transfer_fits(t, e),
    ensures
        r == transfer_next(t, e),
{
    match e {
        DownloadEvent::Stop => (t, DownloadAction::Abort),
        DownloadEvent::Chunk(n) => {
            if t.ended {
                (t, DownloadAction::Keep)
            } else {
                let d = t.downloaded + n;
                let (report, left) = progress_step(t.since, n);
                if report {
                    (Transfer { downloaded: d, since: 0, ended: false }, DownloadAction::Report(d))
                } else {
                    (Transfer { downloaded: d, since: left, ended: false }, DownloadAction::Keep)
                }
            }
        },
        DownloadEvent::End => (Transfer { downloaded: t.downloaded, since: t.since, ended: true }, DownloadAction::Verify),
        DownloadEvent::Checked(ok) => {
            if !t.ended {
                (t, DownloadAction::Keep)
            } else if ok {
                (t, DownloadAction::Install)
            } else {
                (t, DownloadAction::Reject)
            }
        },
    }
}

/// The state after the events `es`, from `t`.
pub open spec fn transfer_after(t: Transfer, es: Seq<DownloadEvent>) -> Transfer
    decreases es.len(),
{
    if es.len() == 0 {
        t
    } else {
        transfer_next(transfer_after(t, es.drop_last()), es.last()).0
    }
}

/// Every step of the run `es` from `t` fits its counters.
pub open spec fn run_fits(t: Transfer, es: Seq<DownloadEvent>) -> bool
    decreases es.len(),
{
    es.len() == 0 || (run_fits(t, es.drop_last()) && transfer_fits(
        transfer_after(t, es.drop_last()),
        es.last(),
    ))
}

/// The action the last of the events `es` leads to, from `t`.
pub open spec fn transfer_action(t: Transfer, es: Seq<DownloadEvent>) -> DownloadAction
    recommends
        es.len() > 0,
{
    transfer_next(transfer_after(t, es.drop_last()), es.last()).1
}

/// Over any run of a transfer: the count never goes down, and what is
/// reported is the count at that moment; the file is installed only in
/// answer to a good header check made after the server's end, never on a
/// stop request, which always aborts.
pub proof fn lemma_transfer_run(t: Transfer, es: Seq<DownloadEvent>)
    requires
        es.len() > 0,
        run_fits(t, es),
    ensures
        transfer_after(t, es).downloaded >= t.downloaded,
        transfer_after(t, es.drop_last()).downloaded <= transfer_after(t, es).downloaded,
        transfer_action(t, es) matches DownloadAction::Report(d) ==> d == transfer_after(t, es).downloaded,
        es.last() is Stop ==> transfer_action(t, es) == DownloadAction::Abort,
        transfer_action(t, es) == DownloadAction::Install ==> es.last() == DownloadEvent::Checked(true)
            && (t.ended || exists|i: int| 0 <= i < es.len() - 1 && es[i] == DownloadEvent::End),
{
    let p = es.drop_last();
    lemma_transfer_count(t, es);
    lemma_transfer_ended(t, p);
}

proof fn lemma_transfer_count(t: Transfer, es: Seq<DownloadEvent>)
    requires
        run_fits(t, es),
    ensures
        transfer_after(t, es).downloaded >= t.downloaded,
    decreases es.len(),
{
    if es.len() > 0 {
        lemma_transfer_count(t, es.drop_last());
    }
}

proof fn lemma_transfer_ended(t: Transfer, es: Seq<DownloadEvent>)
    ensures
        transfer_after(t, es).ended ==> t.ended || exists|i: int| 0 <= i < es.len() && es[i] == DownloadEvent::End,
    decreases es.len(),
{
    if es.len() > 0 {
        let p = es.drop_last();
        lemma_transfer_ended(t, p);
        if transfer_after(t, p).ended && !t.ended {
            let i = choose|i: int| 0 <= i < p.len() && p[i] == DownloadEvent::End;
            assert(es[i] == p[i]);
        }
        if es.last() == DownloadEvent::End {
            assert(es[es.len() - 1] == DownloadEvent::End);
        }
    }
}

} // verus!
