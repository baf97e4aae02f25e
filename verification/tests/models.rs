use aria::models::{
    already_complete, download_total, is_gguf_header, missing_files, progress, progress_step,
    resume_range, suggested_tier, transfer_step, vram_mb_from_reports, DownloadAction,
    DownloadEvent, Tier, Transfer,
};

#[test]
fn every_tier_has_the_four_essential_parts() {
    for tier in [Tier::Light, Tier::Standard, Tier::Best] {
        let files = tier.files();
        for role in ["decoder", "text encoder", "songwriter", "sound model"] {
            assert!(
                files.iter().any(|f| f.role == role),
                "{} tier is missing its {role}",
                tier.label()
            );
        }
        assert!(tier.total_bytes() > 3_000_000_000);
    }
}

#[test]
fn tiers_grow_with_capability() {
    assert!(Tier::Light.total_bytes() < Tier::Standard.total_bytes());
    assert!(Tier::Standard.total_bytes() < Tier::Best.total_bytes());
}

#[test]
fn stem_work_needs_the_detailed_model() {
    // extract/lego/complete require the SFT model; the Light tier can't do
    // them and the UI must not offer them there.
    assert!(!Tier::Light.files().iter().any(|f| f.name.contains("sft")));
    assert!(Tier::Standard.files().iter().any(|f| f.name.contains("sft")));
}

#[test]
fn tier_sizes_are_the_sums_of_their_files() {
    assert_eq!(Tier::Light.total_bytes(), 3_937_000_000);
    assert_eq!(Tier::Standard.total_bytes(), 8_522_000_000);
    assert_eq!(Tier::Best.total_bytes(), 11_162_000_000);
    assert_eq!(Tier::Best.label(), "Best");
}

#[test]
fn the_suggested_tier_follows_graphics_memory() {
    assert_eq!(suggested_tier(Some(8192)), Tier::Best);
    assert_eq!(suggested_tier(Some(7800)), Tier::Best);
    assert_eq!(suggested_tier(Some(6144)), Tier::Standard);
    assert_eq!(suggested_tier(Some(4096)), Tier::Light);
    assert_eq!(suggested_tier(None), Tier::Standard);
    let reports = vec!["8573157376\n".to_string(), "junk".to_string(), "4294967296".to_string()];
    assert_eq!(vram_mb_from_reports(&reports), Some(8176));
    assert_eq!(vram_mb_from_reports(&vec!["0".to_string()]), None);
}

#[test]
fn missing_files_are_those_not_usable() {
    let m = missing_files(Tier::Light, &vec![true, false, true]);
    let names: Vec<&str> = m.iter().map(|f| f.name.as_str()).collect();
    assert_eq!(names, vec!["Qwen3-Embedding-0.6B-Q8_0.gguf", "acestep-v15-turbo-Q6_K.gguf"]);
    assert!(is_gguf_header(b"GGUF\x03"));
    assert!(!is_gguf_header(b"<htm"));
    assert!(!is_gguf_header(b"GGU"));
}

#[test]
fn downloads_resume_and_report_in_steps() {
    assert!(already_complete(Some(10), true, Some(10)));
    assert!(!already_complete(Some(9), true, Some(10)));
    assert!(already_complete(Some(9), true, None));
    assert!(!already_complete(Some(10), false, Some(10)));
    assert!(!already_complete(None, true, None));
    assert_eq!(resume_range(0), None);
    assert_eq!(resume_range(1234), Some("bytes=1234-".to_string()));
    assert_eq!(download_total(Some(100), 20, 7), 120);
    assert_eq!(download_total(None, 20, 7), 7);
    assert_eq!(progress_step(4 << 20, 1), (true, 0));
    assert_eq!(progress_step(4 << 20, 0), (false, 4 << 20));
    let f = &Tier::Light.files()[0];
    let p = progress(f, 0, 4, 5, 10);
    assert_eq!(p.file, "vae-BF16.gguf");
    assert_eq!(p.role, "decoder");
    assert_eq!((p.file_index, p.file_count, p.downloaded, p.total), (0, 4, 5, 10));
}

#[test]
fn an_installed_tier_is_complete_and_does_stems_unless_light() {
    for tier in [Tier::Light, Tier::Standard, Tier::Best] {
        let mut names: Vec<String> = tier.files().into_iter().map(|f| f.name).collect();
        let m = aria::engine::AvailableModels::from_names(&names);
        assert!(m.is_complete(), "{} tier", tier.label());
        assert_eq!(m.supports_stems(), tier != Tier::Light);
        // A folder listing comes in no particular order.
        names.reverse();
        let m = aria::engine::AvailableModels::from_names(&names);
        assert!(m.is_complete(), "{} tier, listed backwards", tier.label());
        assert_eq!(m.supports_stems(), tier != Tier::Light);
    }
}

#[test]
fn a_transfer_reports_in_order_and_installs_only_after_a_good_check() {
    let mut t = Transfer { downloaded: 10, since: 0, ended: false };
    let mut reports = Vec::new();
    for n in [3_000_000u64, 3_000_000, 100, 5_000_000] {
        let (next, action) = transfer_step(t, DownloadEvent::Chunk(n));
        t = next;
        if let DownloadAction::Report(d) = action {
            reports.push(d);
        }
    }
    assert_eq!(reports, vec![6_000_010, 11_000_110]);
    assert_eq!(t.downloaded, 11_000_110);
    // A check before the end changes nothing.
    assert_eq!(transfer_step(t, DownloadEvent::Checked(true)).1, DownloadAction::Keep);
    let (ended, action) = transfer_step(t, DownloadEvent::End);
    assert_eq!(action, DownloadAction::Verify);
    assert!(ended.ended);
    assert_eq!(transfer_step(ended, DownloadEvent::Checked(true)).1, DownloadAction::Install);
    assert_eq!(transfer_step(ended, DownloadEvent::Checked(false)).1, DownloadAction::Reject);
    // Stopping always aborts, leaving the partial file as it is.
    assert_eq!(transfer_step(t, DownloadEvent::Stop).1, DownloadAction::Abort);
    assert_eq!(transfer_step(ended, DownloadEvent::Stop).1, DownloadAction::Abort);
}
