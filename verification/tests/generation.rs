use aria::client::JobStatus;
use aria::engine::AvailableModels;
use aria::generation::{
    languages, parse_locale, pick_models, request_lyrics, title_from, vocal_language, wait_step,
    GenerationError, WaitStep,
};

#[test]
fn builds_titles_from_prompts() {
    assert_eq!(title_from("warm indie folk with guitar"), "Warm indie folk with guitar");
    assert_eq!(title_from(""), "Untitled");
    assert_eq!(
        title_from("dreamy lo-fi hip hop, mellow rhodes piano, soft vinyl"),
        "Dreamy lo-fi hip hop, mellow rhodes"
    );
}

#[test]
fn derives_language_from_locale() {
    assert_eq!(parse_locale("en_NZ.UTF-8"), "en");
    assert_eq!(parse_locale("fr_FR@euro"), "fr");
    assert_eq!(parse_locale("pt_BR"), "pt");
    assert_eq!(parse_locale("ja"), "ja");
    // Anything unusable falls back to English rather than to "random".
    assert_eq!(parse_locale("C"), "en");
    assert_eq!(parse_locale("POSIX"), "en");
    assert_eq!(parse_locale(""), "en");
}

#[test]
fn titles_capitalise_and_drop_trailing_punctuation() {
    assert_eq!(title_from("  ëclair song;  "), "Ëclair song");
    assert_eq!(title_from("one two three four five six seven"), "One two three four five six");
    assert_eq!(title_from("ends with a comma,"), "Ends with a comma");
    assert_eq!(parse_locale("DE_de"), "de");
    assert_eq!(parse_locale("e1"), "en");
}

fn models(lm: &[&str], turbo: &[&str]) -> AvailableModels {
    let mut m = AvailableModels::empty();
    m.lm = lm.iter().map(|s| s.to_string()).collect();
    m.dit_turbo = turbo.iter().map(|s| s.to_string()).collect();
    m
}

#[test]
fn a_generation_needs_a_language_model_and_a_fast_model() {
    assert!(matches!(pick_models(&models(&[], &["t"])), Err(GenerationError::NoLanguageModel)));
    assert!(matches!(pick_models(&models(&["l"], &[])), Err(GenerationError::NoTurboModel)));
    let c = pick_models(&models(&["l1", "l2"], &["t1", "t2"])).ok().unwrap();
    assert_eq!(c.lm_model, "l1");
    assert_eq!(c.synth_model, "t1");
    assert_eq!(GenerationError::NoLanguageModel.message(), "no language model installed");
    assert_eq!(GenerationError::EngineFailed.message(), "the engine could not finish this song");
}

#[test]
fn the_request_always_names_a_language() {
    assert_eq!(request_lyrics(true, "words"), "[Instrumental]");
    assert_eq!(request_lyrics(false, "words"), "words");
    assert_eq!(vocal_language(&Some("fr".to_string()), "en"), "fr");
    assert_eq!(vocal_language(&Some("   ".to_string()), "en"), "en");
    assert_eq!(vocal_language(&None, "de"), "de");
}

#[test]
fn waiting_stops_on_a_final_status_and_announces_every_fourth_poll() {
    assert!(matches!(wait_step(JobStatus::Done, 5), (WaitStep::Finished, 5)));
    assert!(matches!(
        wait_step(JobStatus::Failed, 0),
        (WaitStep::Stopped(GenerationError::EngineFailed), 0)
    ));
    assert!(matches!(
        wait_step(JobStatus::Cancelled, 0),
        (WaitStep::Stopped(GenerationError::Cancelled), 0)
    ));
    assert!(matches!(wait_step(JobStatus::Running, 2), (WaitStep::Again { announce: false }, 3)));
    assert!(matches!(wait_step(JobStatus::Queued, 3), (WaitStep::Again { announce: true }, 4)));
}

#[test]
fn the_language_list_starts_with_english_and_ends_with_maori() {
    let l = languages();
    assert_eq!(l.len(), 39);
    assert_eq!(l[0], ("en".to_string(), "English".to_string()));
    assert_eq!(l[38], ("mi".to_string(), "Māori".to_string()));
}

#[test]
fn optional_request_settings_go_only_when_they_apply() {
    let e = aria::generation::lm_extras(true, Some(96), &Some("C major".to_string()), None);
    assert_eq!(e.use_cot_caption, Some(false));
    assert_eq!(e.bpm, Some(96));
    assert_eq!(e.keyscale.as_deref(), Some("C major"));
    assert_eq!(e.seed, None);
    let e = aria::generation::lm_extras(false, None, &None, Some(7));
    assert_eq!(e.use_cot_caption, None);
    assert_eq!(e.bpm, None);
    assert_eq!(e.keyscale, None);
    assert_eq!(e.seed, Some(7));
}
