use aria::art::{hash64, path_beside, png_for, Rng};

#[test]
fn art_sits_beside_the_audio() {
    assert_eq!(path_beside("/home/u/Music/Aria/song.mp3"), "/home/u/Music/Aria/song.svg");
}

#[test]
fn a_path_without_an_extension_gains_one() {
    assert_eq!(path_beside("/music/song"), "/music/song.svg");
    assert_eq!(path_beside("/music/.hidden"), "/music/.hidden.svg");
    assert_eq!(path_beside("/music/song.tar.mp3"), "/music/song.tar.svg");
}

#[test]
fn the_hash_is_fnv1a() {
    assert_eq!(hash64(""), 0xcbf2_9ce4_8422_2325);
    assert_eq!(hash64("a"), 0xaf63_dc4c_8601_ec8c);
    assert_ne!(hash64("track-abc"), hash64("track-abd"));
    assert_eq!(hash64("track-abc"), hash64("track-abc"));
}

#[test]
fn the_generator_is_xorshift_from_an_odd_seed() {
    // Seed 0 is forced to 1; one xorshift64 step of 1 is 1082269761.
    let mut r = Rng::new(0);
    assert_eq!(r.next_u64(), 1_082_269_761);
    let mut a = Rng::new(2);
    let mut b = Rng::new(3);
    assert_eq!(a.next_u64(), b.next_u64());
    let mut p = Rng::new(0);
    assert_eq!(p.pick(10), 1_082_269_761 % 10);
}

#[test]
fn a_raster_cover_is_stable_and_sized() {
    let a = png_for("track-abc", 4);
    let b = png_for("track-abc", 4);
    assert_eq!(a, b);
    assert_ne!(a, png_for("track-abd", 4));
    assert_eq!(&a[16..20], &4u32.to_be_bytes());
    assert_eq!(&a[20..24], &4u32.to_be_bytes());
}

#[test]
fn covers_alternate_between_bars_and_rings() {
    assert_eq!(aria::art::motif(0), aria::art::Motif::Bars);
    assert_eq!(aria::art::motif(7), aria::art::Motif::Rings);
    assert_eq!(aria::art::motif(u64::MAX), aria::art::Motif::Rings);
}
