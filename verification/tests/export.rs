use aria::export::{
    export_file_names, export_stem, m3u, playlist_file_name, safe_filename, writes_playlist, MAX_TITLE,
};

#[test]
fn names_survive_every_filesystem_they_might_land_on() {
    assert_eq!(safe_filename("AC/DC: Live?"), "AC DC Live");
    assert_eq!(safe_filename("  spaced  out  "), "spaced out");
    assert_eq!(safe_filename("trailing dots..."), "trailing dots");
    assert_eq!(safe_filename("line\nbreak"), "line break");
    assert_eq!(safe_filename(""), "Untitled");
    assert_eq!(safe_filename("///"), "Untitled");
    // Non-Latin titles are not mangled; they are legal everywhere modern.
    assert_eq!(safe_filename("Waiata māori"), "Waiata māori");
    assert!(safe_filename(&"x".repeat(200)).chars().count() <= MAX_TITLE);
}

#[test]
fn leading_dots_and_long_titles_are_cut() {
    assert_eq!(safe_filename("...hidden"), "hidden");
    let long = format!("{} end", "y".repeat(79));
    // The 80th character is the space, which is then trimmed away.
    assert_eq!(safe_filename(&long), "y".repeat(79));
}

#[test]
fn exported_files_are_numbered_to_sort() {
    assert_eq!(export_stem(0, 2, "First: song"), "01 - First song");
    assert_eq!(export_stem(1, 2, "Second song"), "02 - Second song");
    assert_eq!(export_stem(4, 120, "Five"), "005 - Five");
    let (audio, cover) = export_file_names(0, 2, "First: song", "/lib/abc.mp3");
    assert_eq!(audio, "01 - First song.mp3");
    assert_eq!(cover, "01 - First song.svg");
    let (audio, _) = export_file_names(1, 2, "Lossless", "/lib/abc.wav");
    assert_eq!(audio, "02 - Lossless.wav");
    let (audio, _) = export_file_names(1, 2, "Bare", "/lib/abc");
    assert_eq!(audio, "02 - Bare.mp3");
}

#[test]
fn the_playlist_is_extended_m3u() {
    let entries = vec![
        ("01 - First song.mp3".to_string(), 61i64, "First: song".to_string()),
        ("02 - Second song.mp3".to_string(), -1i64, "Second song".to_string()),
    ];
    assert_eq!(
        m3u(&entries),
        "#EXTM3U\n#EXTINF:61,First: song\n01 - First song.mp3\n#EXTINF:-1,Second song\n02 - Second song.mp3\n"
    );
    assert_eq!(m3u(&Vec::new()), "#EXTM3U\n");
    assert_eq!(playlist_file_name("Late night"), "Late night.m3u");
    assert!(writes_playlist(&Some("Mix".to_string()), 1));
    assert!(!writes_playlist(&Some("Mix".to_string()), 0));
    assert!(!writes_playlist(&None, 3));
}

#[test]
fn exported_names_sort_in_track_order_whatever_the_titles() {
    let titles = ["Zebra", "apple", "Mango", "banana", "Älg", "1999", "zz", "a", "B", "c", "D", "e"];
    let names: Vec<String> =
        titles.iter().enumerate().map(|(i, t)| export_stem(i, titles.len(), t)).collect();
    let mut sorted = names.clone();
    sorted.sort();
    assert_eq!(names, sorted);
    assert_eq!(names[9], "10 - c");
}

#[test]
fn a_cut_that_ends_in_a_dot_loses_it() {
    let title = format!("{}.y", "x".repeat(79));
    assert_eq!(safe_filename(&title), "x".repeat(79));
    let dots = format!("{}. .z", "w".repeat(78));
    assert_eq!(safe_filename(&dots), "w".repeat(78));
    assert_eq!(safe_filename(". . ."), "Untitled");
}

#[test]
fn a_missing_song_is_skipped_and_keeps_its_number_gap() {
    let titles = vec!["Here".to_string(), "Gone".to_string(), "Mixed".to_string()];
    let plan = aria::export::export_plan(&titles, &vec![true, false, true]);
    assert_eq!(plan.copy, vec![0, 2]);
    assert_eq!(plan.skipped, vec!["Gone".to_string()]);
    assert_eq!(export_stem(plan.copy[1], titles.len(), &titles[2]), "03 - Mixed");
}

#[test]
fn runs_of_blanks_become_one_space() {
    assert_eq!(safe_filename("a \t\n b"), "a b");
    assert_eq!(safe_filename("  a:*?b  "), "a b");
    assert_eq!(safe_filename("..\t:|.."), "Untitled");
}
