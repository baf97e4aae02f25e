use aria::engine::{
    after_failure, crashed_on_device_lost, discovery_candidates, engine_base_url, engine_status,
    explain_failure, is_orphan, needs_start, push_log, server_args, server_env, startup_step,
    AvailableModels, EnginePaths, EngineSettings, EngineState, Recovery, StartupStep, LOG_LINES,
};

fn names(v: &[&str]) -> Vec<String> {
    v.iter().map(|s| s.to_string()).collect()
}

#[test]
fn the_chunk_steps_down_then_gives_way_to_the_cpu() {
    let mut s = EngineSettings::default();
    assert_eq!((s.vae_chunk, s.vae_chunk_verified, s.cpu_fallback), (128, false, false));
    s.mark_chunk_verified();
    assert!(s.vae_chunk_verified);
    assert!(s.reduce_chunk());
    assert_eq!(s.vae_chunk, 64);
    assert!(!s.vae_chunk_verified);
    assert!(!s.reduce_chunk());
    assert!(s.cpu_fallback);
    assert_eq!(s.vae_chunk, 64);
    let mut big = EngineSettings { vae_chunk: 1024, vae_chunk_verified: true, cpu_fallback: false };
    assert!(big.reduce_chunk());
    assert_eq!(big.vae_chunk, 256);
}

#[test]
fn a_failure_is_retried_until_the_allowance_runs_out() {
    let mut s = EngineSettings::default();
    match after_failure(&mut s, 0, true, true, "x") {
        Recovery::Retry { attempt, message } => {
            assert_eq!(attempt, 1);
            assert_eq!(message, "Adjusting for your graphics card (attempt 2)");
        }
        other => panic!("{other:?}"),
    }
    assert_eq!(s.vae_chunk, 64);
    match after_failure(&mut s, 1, true, true, "x") {
        Recovery::Retry { message, .. } => {
            assert_eq!(message, "Switching to CPU rendering for reliability")
        }
        other => panic!("{other:?}"),
    }
    assert!(s.cpu_fallback);
    match after_failure(&mut s, 2, true, false, "x") {
        Recovery::Retry { attempt, message } => {
            assert_eq!(attempt, 3);
            assert_eq!(message, "Restarting the engine");
        }
        other => panic!("{other:?}"),
    }
    match after_failure(&mut s, 3, true, true, "the driver hung") {
        Recovery::GiveUp(m) => assert_eq!(
            m,
            "Generation kept failing because the driver hung. Aria will use slower CPU decoding from now on."
        ),
        other => panic!("{other:?}"),
    }
    assert!(matches!(after_failure(&mut s, 0, false, true, "x"), Recovery::Report));
}

#[test]
fn model_files_are_sorted_by_role() {
    let m = AvailableModels::from_names(&names(&[
        "acestep-5Hz-lm-0.6B-Q8_0.gguf",
        "acestep-5Hz-lm-4B-Q8_0.gguf",
        "acestep-5Hz-lm-1.7B-Q8_0.gguf",
        "Qwen3-Embedding-0.6B-Q8_0.gguf",
        "vae-BF16.gguf",
        "acestep-v15-turbo-Q8_0.gguf",
        "acestep-v15-sft-Q8_0.gguf",
        "notes.txt",
    ]));
    assert_eq!(m.lm.len(), 3);
    assert_eq!(m.embedding, names(&["Qwen3-Embedding-0.6B-Q8_0.gguf"]));
    assert_eq!(m.vae, names(&["vae-BF16.gguf"]));
    assert_eq!(m.dit_turbo, names(&["acestep-v15-turbo-Q8_0.gguf"]));
    assert_eq!(m.dit_sft, names(&["acestep-v15-sft-Q8_0.gguf"]));
    assert_eq!(m.best_lm(), Some("acestep-5Hz-lm-4B-Q8_0.gguf".to_string()));
    assert_eq!(m.fastest_lm(), Some("acestep-5Hz-lm-0.6B-Q8_0.gguf".to_string()));
    assert!(m.is_complete());
    assert!(m.supports_stems());
    assert_eq!(AvailableModels::lm_rank("x-1.7B-y"), 2);
    let st = engine_status(EngineState::Ready, &EngineSettings::default(), m);
    assert!(st.models_complete && st.supports_stems);
    assert_eq!(st.vae_chunk, 128);
    let empty = AvailableModels::empty();
    assert!(!empty.is_complete());
    assert_eq!(empty.best_lm(), None);
}

#[test]
fn equal_ranks_pick_the_last_largest_and_first_smallest() {
    let m = AvailableModels::from_names(&names(&["a-lm-x.gguf", "b-lm-y.gguf"]));
    assert_eq!(m.best_lm(), Some("b-lm-y.gguf".to_string()));
    assert_eq!(m.fastest_lm(), Some("a-lm-x.gguf".to_string()));
}

#[test]
fn crashes_are_explained_in_plain_words() {
    let lost = names(&["loading", "vk::DeviceLostError thrown"]);
    assert!(crashed_on_device_lost(&lost));
    assert_eq!(explain_failure(&lost), "the graphics driver interrupted a long decode step");
    let err = names(&["error: first", "fine", "Error: second", "tail"]);
    assert!(!crashed_on_device_lost(&err));
    assert_eq!(explain_failure(&err), "Error: second");
    assert_eq!(explain_failure(&names(&["ok"])), "the engine stopped unexpectedly");
}

#[test]
fn the_server_is_started_with_its_chunk_and_overlap() {
    let paths = EnginePaths { server_bin: "/e/ace-server".into(), models_dir: "/e/models".into() };
    let s = EngineSettings { vae_chunk: 256, vae_chunk_verified: false, cpu_fallback: false };
    assert_eq!(
        server_args(&paths, &s),
        names(&[
            "--models", "/e/models", "--host", "127.0.0.1", "--port", "8422", "--vae-chunk",
            "256", "--vae-overlap", "32", "--max-batch", "4",
        ])
    );
    assert_eq!(server_env(&s), None);
    let cpu = EngineSettings { vae_chunk: 64, vae_chunk_verified: false, cpu_fallback: true };
    assert_eq!(server_args(&paths, &cpu)[9], "8");
    assert_eq!(server_env(&cpu), Some(("GGML_BACKEND".to_string(), "cpu".to_string())));
    assert_eq!(engine_base_url(), "http://127.0.0.1:8422");
}

#[test]
fn the_engine_is_looked_for_in_order() {
    let c = discovery_candidates(&Some("/opt/aria".to_string()), &Some("/home/u/src/".to_string()));
    assert_eq!(c.len(), 12);
    assert_eq!(c[0].server_bin, "/opt/aria/build-static/ace-server");
    assert_eq!(c[0].models_dir, "/opt/aria/models");
    assert_eq!(c[2].server_bin, "/opt/aria/ace-server");
    assert_eq!(c[3].server_bin, "/opt/aria/engine/build-static/ace-server");
    assert_eq!(c[6].models_dir, "/home/u/src/engine/acestep.cpp/models");
    assert_eq!(c[11].server_bin, "/home/u/src/../engine/acestep.cpp/ace-server");
    assert!(discovery_candidates(&None, &None).is_empty());
}

#[test]
fn the_log_keeps_only_its_newest_lines() {
    let mut tail: Vec<String> = Vec::new();
    for i in 0..(LOG_LINES + 5) {
        push_log(&mut tail, format!("line {i}"));
    }
    assert_eq!(tail.len(), LOG_LINES);
    assert_eq!(tail[0], "line 5");
    assert_eq!(tail[LOG_LINES - 1], format!("line {}", LOG_LINES + 4));
}

#[test]
fn only_our_own_stranded_engine_is_reclaimed() {
    let cmd = "/e/ace-server --models /e/models --host 127.0.0.1 --port 8422 ";
    assert!(is_orphan(10, 20, cmd, "/e/models"));
    assert!(!is_orphan(20, 20, cmd, "/e/models"));
    assert!(!is_orphan(10, 20, cmd, "/other/models"));
    assert!(!is_orphan(10, 20, "/e/ace-server --port 9000 /e/models", "/e/models"));
}

#[test]
fn startup_waits_for_health_until_the_deadline() {
    assert!(needs_start(EngineState::Stopped));
    assert!(needs_start(EngineState::Crashed));
    assert!(!needs_start(EngineState::Ready));
    assert!(!needs_start(EngineState::Starting));
    assert!(matches!(startup_step(false, false, false), StartupStep::Wait));
    assert!(matches!(startup_step(false, true, false), StartupStep::Ready));
    assert!(matches!(startup_step(true, true, false), StartupStep::Exited));
    assert!(matches!(startup_step(true, true, true), StartupStep::TimedOut));
}

#[test]
fn each_startup_outcome_leaves_its_state() {
    assert_eq!(aria::engine::startup_state(&StartupStep::Ready), EngineState::Ready);
    assert_eq!(aria::engine::startup_state(&StartupStep::Exited), EngineState::Crashed);
    assert_eq!(aria::engine::startup_state(&StartupStep::TimedOut), EngineState::Crashed);
    assert_eq!(aria::engine::startup_state(&StartupStep::Wait), EngineState::Starting);
    assert_eq!(aria::engine::startup_state(&StartupStep::NotSpawned), EngineState::Stopped);
}
