use aria::lyrics::{
    chat_content, choose_model, clean, finish_lyrics, finish_style, is_filler, lyric_stats, model_names,
};

#[test]
fn recognises_filler_without_eating_real_words() {
    assert!(is_filler("oh oh oh"));
    assert!(is_filler("La la la"));
    assert!(is_filler("Wah-oh-oh-oh"));
    assert!(!is_filler("The sun is shining"));
    // "Yeah" alone is filler; used in a sentence it isn't.
    assert!(is_filler("yeah yeah"));
    assert!(!is_filler("yeah I remember"));
}

#[test]
fn strips_fences_and_commentary() {
    let raw = "Here are the lyrics:\n```\n[Verse 1]\nStones by the river\n```\nI hope you like it!";
    assert_eq!(clean(raw), "[Verse 1]\nStones by the river");
}

#[test]
fn keeps_plain_lyrics_untouched() {
    let raw = "[Verse 1]\nStones by the river\n\n[Chorus]\nGouda gold";
    assert_eq!(clean(raw), raw);
}

#[test]
fn blank_and_empty_lines_are_filler_and_trimmed_off_the_ends() {
    assert!(is_filler(""));
    assert!(is_filler("...!"));
    assert_eq!(clean("\n\n  \nWords\n\nNote: that was it\n  \n"), "Words");
    assert_eq!(clean("Here's a song\nhere ARE more"), "");
}

#[test]
fn counts_lines_repeats_and_filler() {
    let repetitive = "[Verse 1]\nI talk talk talk talk talk\nI talk talk talk talk talk\n\
                      I talk talk talk talk talk\nI talk talk talk talk talk";
    let st = lyric_stats(repetitive);
    assert_eq!((st.lines, st.distinct, st.filler), (4, 1, 0));

    let vocalising = "[Verse 1]\nWah-oh-oh-oh-oh\nOh oh oh\nLa la la\nYeah yeah";
    let st = lyric_stats(vocalising);
    assert_eq!((st.lines, st.distinct, st.filler), (4, 4, 4));

    let st = lyric_stats("[Intro]\n[Outro]");
    assert_eq!(st.lines, 0);
    let st = lyric_stats("");
    assert_eq!(st.lines, 0);
}

#[test]
fn a_style_keeps_the_users_words_in_front() {
    let r = finish_style("modern jazz...", "Smoky brushed drums and upright bass.\nWarm keys.");
    assert_eq!(r.unwrap(), "modern jazz. Smoky brushed drums and upright bass. Warm keys.");
    assert_eq!(finish_style("jazz", "too short"), None);
    assert_eq!(finish_lyrics("```\n\n```"), None);
    assert_eq!(finish_lyrics("Here are the lyrics:\nLine one"), Some("Line one".to_string()));
}

#[test]
fn the_lyric_model_is_a_local_preferred_one() {
    let installed = vec![
        "mistral:latest".to_string(),
        "gemma3:4b-cloud:cloud".to_string(),
        "gemma3:4b".to_string(),
    ];
    assert_eq!(choose_model(&installed), Some("gemma3:4b".to_string()));
    let only_cloud = vec!["llama3.2:3b:cloud".to_string()];
    assert_eq!(choose_model(&only_cloud), None);
    let unknown = vec!["tinyllama".to_string(), "other".to_string()];
    assert_eq!(choose_model(&unknown), Some("tinyllama".to_string()));
}

#[test]
fn the_model_list_gives_the_names_it_holds() {
    let tags = r#"{"models":[{"name":"qwen3:8b","size":1},{"size":2},{"name":"llama3.2:3b"}]}"#;
    assert_eq!(model_names(tags).unwrap(), vec!["qwen3:8b".to_string(), "llama3.2:3b".to_string()]);
    assert_eq!(model_names(r#"{"models":[]}"#).unwrap(), Vec::<String>::new());
    assert_eq!(model_names(r#"{"models":{}}"#), None);
    assert_eq!(model_names("{}"), None);
    assert_eq!(model_names("down"), None);
}

#[test]
fn a_chat_reply_gives_its_message_content() {
    let reply = r#"{"model":"qwen3:8b","message":{"role":"assistant","content":"Verse one"},"done":true}"#;
    assert_eq!(chat_content(reply).unwrap(), "Verse one");
    assert_eq!(chat_content(r#"{"message":{"role":"assistant"}}"#), None);
    assert_eq!(chat_content(r#"{"error":"no model"}"#), None);
    assert_eq!(chat_content(""), None);
}
