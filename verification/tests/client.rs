use aria::client::{
    analysis_text, int_field, lm_results_text, poll_text, reply_job_id, string_field, PollError,
    ResultError,
};
use aria::client::{
    find, parse_multipart, split_on, status_from_word, understand_parts, upload_parts, JobStatus,
    ReplyError, SynthSources,
};

#[test]
fn parses_audio_and_latent_parts() {
    let mut buf = Vec::new();
    buf.extend_from_slice(b"--ace-batch-boundary\r\nContent-Type: audio/mpeg\r\n\r\n");
    buf.extend_from_slice(&[0xAAu8; 128]);
    buf.extend_from_slice(b"\r\n--ace-batch-boundary\r\nContent-Type: application/octet-stream\r\nContent-Disposition: form-data; name=\"latent\"\r\n\r\n");
    buf.extend_from_slice(&[0xBBu8; 256]);
    buf.extend_from_slice(b"\r\n--ace-batch-boundary--");

    let out = parse_multipart(&buf).expect("should parse");
    assert_eq!(out.audio.len(), 128);
    assert_eq!(out.latent.as_ref().unwrap().len(), 256);
}

#[test]
fn errors_when_no_audio_part() {
    let buf = b"--ace-batch-boundary\r\nContent-Type: text/plain\r\n\r\nnope\r\n--ace-batch-boundary--";
    assert!(parse_multipart(buf).is_err());
    assert_eq!(parse_multipart(buf).err(), Some(ReplyError::NoAudio));
}

#[test]
fn the_audio_and_latent_bytes_are_the_parts_bodies() {
    let mut buf = Vec::new();
    buf.extend_from_slice(b"--ace-batch-boundary\r\nContent-Type: audio/mpeg\r\n\r\n");
    let audio = vec![0xAAu8; 100];
    buf.extend_from_slice(&audio);
    buf.extend_from_slice(b"\r\n--ace-batch-boundary\r\nContent-Type: application/octet-stream; name=\"latent\"\r\n\r\n");
    let latent = vec![0xBBu8; 80];
    buf.extend_from_slice(&latent);
    buf.extend_from_slice(b"\r\n--ace-batch-boundary--");
    let out = parse_multipart(&buf).unwrap();
    assert_eq!(out.audio, audio);
    assert_eq!(out.latent.unwrap(), latent);
}

#[test]
fn short_parts_are_not_audio() {
    let mut buf = Vec::new();
    buf.extend_from_slice(b"--ace-batch-boundary\r\nContent-Type: audio/mpeg\r\n\r\n");
    buf.extend_from_slice(&[1u8; 63]);
    buf.extend_from_slice(b"\r\n--ace-batch-boundary--");
    assert!(parse_multipart(&buf).is_err());
}

#[test]
fn every_status_word_is_known() {
    assert_eq!(status_from_word("done"), Some(JobStatus::Done));
    assert_eq!(status_from_word("running"), Some(JobStatus::Running));
    assert_eq!(status_from_word("queued"), Some(JobStatus::Queued));
    assert_eq!(status_from_word("failed"), Some(JobStatus::Failed));
    assert_eq!(status_from_word("cancelled"), Some(JobStatus::Cancelled));
    assert_eq!(status_from_word("warp"), None);
    assert!(JobStatus::Done.is_terminal());
    assert!(JobStatus::Cancelled.is_terminal());
    assert!(!JobStatus::Running.is_terminal());
}

#[test]
fn finding_and_splitting_bytes() {
    assert_eq!(find(b"abcabc", b"ca"), Some(2));
    assert_eq!(find(b"abc", b"x"), None);
    let parts = split_on(b"--a--b----c", b"--");
    assert_eq!(parts, vec![b"a".to_vec(), b"b".to_vec(), b"c".to_vec()]);
}

#[test]
fn an_analysis_reply_gives_its_json_and_latent() {
    let mut buf = Vec::new();
    buf.extend_from_slice(b"--ace-batch-boundary\r\nContent-Type: application/json\r\n\r\n");
    buf.extend_from_slice(b"{\"bpm\":120}");
    buf.extend_from_slice(b"\r\n--ace-batch-boundary\r\nContent-Type: application/octet-stream\r\n\r\n");
    buf.extend_from_slice(&[7u8; 10]);
    buf.extend_from_slice(b"\r\n--ace-batch-boundary--");
    let parts = understand_parts(&buf);
    assert_eq!(parts.json.len(), 1);
    assert_eq!(parts.json[0], b"{\"bpm\":120}".to_vec());
    assert_eq!(parts.latent, Some(vec![7u8; 10]));
}

#[test]
fn latents_are_uploaded_in_preference_to_audio() {
    let parts = upload_parts(SynthSources {
        audio: Some(vec![1]),
        latent: Some(vec![2]),
        ref_audio: Some(vec![3]),
        ref_latent: None,
    });
    assert_eq!(parts.len(), 2);
    assert_eq!(parts[0].field, "src_latents");
    assert_eq!(parts[0].file_name, "source.latent");
    assert_eq!(parts[0].data, vec![2]);
    assert_eq!(parts[1].field, "ref_audio");
    assert_eq!(parts[1].mime, "audio/mpeg");
    assert_eq!(parts[1].data, vec![3]);

    let none = upload_parts(SynthSources { audio: None, latent: None, ref_audio: None, ref_latent: None });
    assert!(none.is_empty());
}

#[test]
fn a_poll_reply_is_read_in_order_of_what_can_go_wrong() {
    assert!(matches!(aria::client::poll_reply("  \n", None), Err(aria::client::PollError::Silent)));
    assert!(matches!(aria::client::poll_reply("{oops", None), Err(aria::client::PollError::Malformed)));
    assert!(matches!(aria::client::poll_reply("{}", Some(None)), Err(aria::client::PollError::Unknown(None))));
    match aria::client::poll_reply("{\"status\":\"warp\"}", Some(Some("warp".to_string()))) {
        Err(aria::client::PollError::Unknown(Some(w))) => assert_eq!(w, "warp"),
        other => panic!("{other:?}"),
    }
    assert_eq!(
        aria::client::poll_reply("{\"status\":\"done\"}", Some(Some("done".to_string()))).unwrap(),
        JobStatus::Done
    );
}

#[test]
fn a_poll_body_is_read_as_json_for_its_status() {
    assert!(matches!(poll_text(""), Err(PollError::Silent)));
    assert!(matches!(poll_text(" \r\n\t"), Err(PollError::Silent)));
    assert!(matches!(poll_text("status: done"), Err(PollError::Malformed)));
    assert!(matches!(poll_text("{\"status\":"), Err(PollError::Malformed)));
    assert!(matches!(poll_text("{}"), Err(PollError::Unknown(None))));
    assert!(matches!(poll_text("[\"done\"]"), Err(PollError::Unknown(None))));
    assert!(matches!(poll_text("{\"status\":3}"), Err(PollError::Unknown(None))));
    match poll_text("{\"status\":\"warp\"}") {
        Err(PollError::Unknown(Some(w))) => assert_eq!(w, "warp"),
        other => panic!("{other:?}"),
    }
    assert_eq!(poll_text("{\"status\":\"done\"}").unwrap(), JobStatus::Done);
    assert_eq!(poll_text(" {\"id\":\"j1\",\"status\":\"running\"}\n").unwrap(), JobStatus::Running);
    assert_eq!(poll_text("{\"status\":\"queued\"}").unwrap(), JobStatus::Queued);
    assert_eq!(poll_text("{\"status\":\"failed\"}").unwrap(), JobStatus::Failed);
    assert_eq!(poll_text("{\"status\":\"cancelled\"}").unwrap(), JobStatus::Cancelled);
}

#[test]
fn submit_posts_json_and_reads_the_job_id() {
    assert_eq!(reply_job_id(r#"{"id":"job-1"}"#).unwrap(), "job-1");
}

#[test]
fn a_response_without_a_job_id_is_an_error_not_a_panic() {
    assert_eq!(reply_job_id("{}"), None);
    assert_eq!(reply_job_id(""), None);
    assert_eq!(reply_job_id(r#"{"id":7}"#), None);
    assert_eq!(reply_job_id(r#"["job-1"]"#), None);
}

#[test]
fn poll_maps_every_status_word() {
    for (word, want) in [
        ("done", JobStatus::Done),
        ("running", JobStatus::Running),
        ("queued", JobStatus::Queued),
        ("failed", JobStatus::Failed),
        ("cancelled", JobStatus::Cancelled),
    ] {
        assert_eq!(poll_text(&format!(r#"{{"status":"{word}"}}"#)).unwrap(), want, "status word {word:?}");
    }
}

#[test]
fn poll_treats_an_empty_body_as_a_dead_engine() {
    assert!(matches!(poll_text(""), Err(PollError::Silent)));
}

#[test]
fn poll_refuses_an_unknown_status_word_rather_than_guessing() {
    assert!(poll_text(r#"{"status":"warp"}"#).is_err());
}

#[test]
fn lm_results_normalises_single_and_batch_shapes() {
    // The batch shape is what the engine actually sends.
    assert_eq!(lm_results_text(r#"[{"codes":[1]},{"codes":[2]}]"#).unwrap().len(), 2);
    // A single object is wrapped so callers never branch.
    assert_eq!(lm_results_text(r#"{"codes":[9]}"#).unwrap().len(), 1);
    // An empty array is "the engine made nothing", which must be an error.
    assert!(lm_results_text("[]").is_err());
}

#[test]
fn each_take_is_handed_out_as_its_own_json() {
    let takes = lm_results_text(r#"[{"codes":[1]},{"codes":[2]}]"#).unwrap();
    assert_eq!(takes, vec![r#"{"codes":[1]}"#.to_string(), r#"{"codes":[2]}"#.to_string()]);
    assert_eq!(lm_results_text(r#"{"codes":[9]}"#).unwrap(), vec![r#"{"codes":[9]}"#.to_string()]);
    assert_eq!(lm_results_text("[]"), Err(ResultError::Nothing));
    assert_eq!(lm_results_text("not json"), Err(ResultError::NotJson));
}

#[test]
fn the_analysis_is_the_first_item_of_the_last_json_part() {
    let parts = vec![b"{\"bpm\":90}".to_vec(), b"[{\"bpm\":120},{\"bpm\":60}]".to_vec()];
    assert_eq!(analysis_text(&parts).unwrap(), r#"{"bpm":120}"#);
    assert_eq!(analysis_text(&vec![b"{\"key\":\"C\"}".to_vec()]).unwrap(), r#"{"key":"C"}"#);
    assert_eq!(analysis_text(&vec![b"[]".to_vec()]).unwrap(), "[]");
    assert_eq!(analysis_text(&vec![]), Err(ResultError::Nothing));
    assert_eq!(analysis_text(&vec![b"{oops".to_vec(), b"{}".to_vec()]), Err(ResultError::NotJson));
}

#[test]
fn fields_of_an_enriched_request_are_read_by_name() {
    let req = r#"{"caption":"folk","bpm":96,"seed":-3,"duration":30.5}"#;
    assert_eq!(string_field(req, "caption").unwrap(), "folk");
    assert_eq!(string_field(req, "lyrics"), None);
    assert_eq!(string_field(req, "bpm"), None);
    assert_eq!(int_field(req, "bpm"), Some(96));
    assert_eq!(int_field(req, "seed"), Some(-3));
    assert_eq!(int_field(req, "duration"), None);
    assert_eq!(int_field("nonsense", "bpm"), None);
}

#[test]
fn synth_result_splits_audio_from_latent() {
    let mut body = Vec::new();
    body.extend_from_slice(b"--ace-batch-boundary\r\nContent-Type: audio/mpeg\r\n\r\n");
    let audio = vec![0xAAu8; 100];
    body.extend_from_slice(&audio);
    body.extend_from_slice(b"\r\n--ace-batch-boundary\r\nContent-Type: application/octet-stream; name=\"latent\"\r\n\r\n");
    let latent = vec![0xBBu8; 80];
    body.extend_from_slice(&latent);
    body.extend_from_slice(b"\r\n--ace-batch-boundary--");
    let out = parse_multipart(&body).unwrap();
    assert_eq!(out.audio, audio);
    assert_eq!(out.latent.unwrap(), latent);
}
