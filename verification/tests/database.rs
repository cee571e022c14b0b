use anime_database_lib::database::{Anime, Database, EpisodeMap, InvalidEpisodeError};
use anime_database_lib::episode::Episode;

fn numbered(season: usize, episode: usize) -> Episode {
    Episode::Numbered { season, episode }
}

fn show_with(paths: &[&str]) -> Anime {
    let mut anime = Anime::from_path("/library/show", 7);
    let files: Vec<String> = paths.iter().map(|p| p.to_string()).collect();
    anime.update_episodes(&files);
    anime
}

#[test]
fn fresh_show_defaults() {
    let anime = Anime::from_path("/library/show", 42);
    assert_eq!(numbered(1, 1), anime.current_episode());
    assert_eq!(0, anime.last_watched());
    assert_eq!(42, anime.last_updated());
    assert!(anime.episodes().is_empty());
    assert_eq!("/library/show", anime.path().as_str());
}

#[test]
fn update_episodes_classifies_and_sorts() {
    let anime = show_with(&[
        "/library/show/Show - 02 [x].mkv",
        "/library/show/Show - 01 [x].mkv",
        "/library/show/Show S02E01.mkv",
    ]);
    let eps: &EpisodeMap = anime.episodes();
    assert_eq!(3, eps.len());
    assert_eq!(numbered(1, 1), eps[0].0);
    assert_eq!(numbered(1, 2), eps[1].0);
    assert_eq!(numbered(2, 1), eps[2].0);
}

#[test]
fn update_episodes_skips_other_extensions_and_errors() {
    let anime = show_with(&[
        "/library/show/Show - 01 [x].mkv",
        "/library/show/cover.jpg",
        "/library/show/notes.txt",
        "..",
    ]);
    assert_eq!(1, anime.episodes().len());
}

#[test]
fn update_episodes_buckets_duplicate_releases() {
    let anime = show_with(&[
        "/library/show/cd1/Show - 01 [a].mkv",
        "/library/show/cd2/Show - 01 [b].mkv",
    ]);
    let eps = anime.episodes();
    assert_eq!(1, eps.len());
    assert_eq!(
        vec![
            "/library/show/cd1/Show - 01 [a].mkv".to_string(),
            "/library/show/cd2/Show - 01 [b].mkv".to_string(),
        ],
        eps[0].1
    );
}

// Synchronizing the same unchanged file list twice yields exactly the
// map one pass yields.
#[test]
fn merge_idempotent() {
    let files: Vec<String> = vec![
        "/library/show/Show - 01 [a].mkv".to_string(),
        "/library/show/Show - 02 [a].mkv".to_string(),
        "/library/show/Show - 01 [b].mkv".to_string(),
    ];
    let mut once = Anime::from_path("/library/show", 7);
    once.update_episodes(&files);
    let mut twice = Anime::from_path("/library/show", 7);
    twice.update_episodes(&files);
    twice.update_episodes(&files);
    assert_eq!(once.episodes(), twice.episodes());
}

#[test]
fn update_watched_accepts_existing_episode() {
    let mut anime = show_with(&["/library/show/Show - 01 [x].mkv"]);
    assert!(anime.update_watched(numbered(1, 1)).is_ok());
    assert_eq!(numbered(1, 1), anime.current_episode());
    assert!(anime.last_watched() > 0);
}

#[test]
fn update_watched_rejects_absent_episode_without_mutation() {
    let mut anime = show_with(&["/library/show/Show - 01 [x].mkv"]);
    let before_current = anime.current_episode();
    let before_watched = anime.last_watched();
    let r = anime.update_watched(numbered(9, 9));
    match r {
        Err(InvalidEpisodeError::NotExist { anime: name, episode }) => {
            assert_eq!("/library/show", name.as_str());
            assert_eq!(numbered(9, 9), episode);
        }
        Ok(()) => panic!("an absent episode must be rejected"),
    }
    assert_eq!(before_current, anime.current_episode());
    assert_eq!(before_watched, anime.last_watched());
}

fn show_from_keys(keys: &[Episode], current: Episode) -> Anime {
    let episodes: EpisodeMap = keys
        .iter()
        .map(|ep| (ep.clone(), vec!["/p".to_string()]))
        .collect();
    Anime::from_parts("/library/show".to_string(), 0, 7, current, &episodes)
}

// The boundary behavior of the successor probe: the same season is
// tried first, then the zero-indexed premiere of the next season,
// then the one-indexed one.
#[test]
fn next_episode_same_season_then_next_season() {
    let anime = show_from_keys(
        &[numbered(1, 1), numbered(1, 2), numbered(2, 1)],
        numbered(1, 2),
    );
    assert_eq!(Some(numbered(2, 1)), anime.next_episode());
}

#[test]
fn next_episode_zero_indexed_premiere_first() {
    let anime = show_from_keys(&[numbered(1, 1), numbered(2, 0)], numbered(1, 1));
    assert_eq!(Some(numbered(2, 0)), anime.next_episode());
}

#[test]
fn next_episode_prefers_zero_over_one_indexed() {
    let anime = show_from_keys(
        &[numbered(1, 1), numbered(2, 0), numbered(2, 1)],
        numbered(1, 1),
    );
    assert_eq!(Some(numbered(2, 0)), anime.next_episode());
}

#[test]
fn next_episode_none_when_nothing_follows() {
    let anime = show_from_keys(&[numbered(1, 1)], numbered(1, 1));
    assert_eq!(None, anime.next_episode());
}

#[test]
fn next_episode_of_special_is_none() {
    let anime = show_from_keys(
        &[numbered(1, 1), numbered(1, 2)],
        Episode::Special {
            filename: "op.mkv".to_string(),
        },
    );
    assert_eq!(None, anime.next_episode());
}

#[test]
fn next_episode_raw_probes_in_order() {
    let anime = show_from_keys(&[numbered(1, 2), numbered(2, 1)], numbered(1, 1));
    assert_eq!(Some(numbered(1, 2)), anime.next_episode_raw((1, 1)));
    assert_eq!(Some(numbered(2, 1)), anime.next_episode_raw((1, 2)));
    assert_eq!(None, anime.next_episode_raw((2, 1)));
}

#[test]
fn from_parts_sorts_and_deduplicates() {
    let episodes: EpisodeMap = vec![
        (numbered(2, 1), vec!["/b".to_string()]),
        (
            numbered(1, 1),
            vec!["/a".to_string(), "/a".to_string(), "/c".to_string()],
        ),
    ];
    let anime = Anime::from_parts(
        "/library/show".to_string(),
        5,
        9,
        numbered(1, 1),
        &episodes,
    );
    let eps = anime.episodes();
    assert_eq!(2, eps.len());
    assert_eq!(numbered(1, 1), eps[0].0);
    assert_eq!(vec!["/a".to_string(), "/c".to_string()], eps[0].1);
    assert_eq!(numbered(2, 1), eps[1].0);
    assert_eq!(5, anime.last_watched());
    assert_eq!(9, anime.last_updated());
    assert_eq!(numbered(1, 1), anime.current_episode());
}

#[test]
fn database_sync_show_creates_and_merges() {
    let mut db = Database::new();
    let files: Vec<String> = vec![
        "/root/ShowA/ShowA - 01.mkv".to_string(),
        "/root/ShowA/ShowA - 02.mkv".to_string(),
    ];
    db.sync_show("ShowA", "/root/ShowA", &files, 100);
    let anime = db.get_anime("ShowA").expect("the show was just created");
    assert_eq!(2, anime.episodes().len());
    assert_eq!(100, anime.last_updated());
    assert_eq!(numbered(1, 1), anime.current_episode());
    assert!(db.get_anime("ShowB").is_none());
}

#[test]
fn database_sync_show_twice_is_idempotent() {
    let files: Vec<String> = vec!["/root/ShowA/ShowA - 01.mkv".to_string()];
    let mut db = Database::new();
    db.sync_show("ShowA", "/root/ShowA", &files, 100);
    let once = db.get_anime("ShowA").unwrap().episodes().clone();
    db.sync_show("ShowA", "/root/ShowA", &files, 200);
    let again = db.get_anime("ShowA").unwrap();
    assert_eq!(&once, again.episodes());
    assert_eq!(200, again.last_updated());
}

#[test]
fn database_needs_update_tracks_scan_time() {
    let files: Vec<String> = vec!["/root/ShowA/ShowA - 01.mkv".to_string()];
    let mut db = Database::new();
    assert!(db.needs_update("ShowA", 0));
    db.sync_show("ShowA", "/root/ShowA", &files, 100);
    assert!(!db.needs_update("ShowA", 100));
    assert!(!db.needs_update("ShowA", 50));
    assert!(db.needs_update("ShowA", 101));
    assert!(db.needs_update("ShowB", 0));
}

#[test]
fn database_update_watched_through_get_anime() {
    let files: Vec<String> = vec![
        "/root/ShowA/ShowA - 01.mkv".to_string(),
        "/root/ShowA/ShowA - 02.mkv".to_string(),
    ];
    let mut db = Database::new();
    db.sync_show("ShowA", "/root/ShowA", &files, 100);
    let anime = db.get_anime("ShowA").unwrap();
    assert!(anime.update_watched(numbered(1, 2)).is_ok());
    let anime = db.get_anime("ShowA").unwrap();
    assert_eq!(numbered(1, 2), anime.current_episode());
}

#[test]
fn database_animes_orders_by_watch_time_then_name() {
    let empty: EpisodeMap = Vec::new();
    let mut db = Database::new();
    db.insert_anime(
        "beta",
        Anime::from_parts("/r/beta".to_string(), 50, 0, numbered(1, 1), &empty),
    );
    db.insert_anime(
        "alpha",
        Anime::from_parts("/r/alpha".to_string(), 50, 0, numbered(1, 1), &empty),
    );
    db.insert_anime(
        "gamma",
        Anime::from_parts("/r/gamma".to_string(), 90, 0, numbered(1, 1), &empty),
    );
    db.insert_anime(
        "delta",
        Anime::from_parts("/r/delta".to_string(), 0, 0, numbered(1, 1), &empty),
    );
    assert_eq!(
        vec![
            "gamma".to_string(),
            "alpha".to_string(),
            "beta".to_string(),
            "delta".to_string(),
        ],
        db.animes()
    );
}

#[test]
fn database_insert_anime_replaces_same_name() {
    let empty: EpisodeMap = Vec::new();
    let mut db = Database::new();
    db.insert_anime(
        "alpha",
        Anime::from_parts("/r/alpha".to_string(), 1, 0, numbered(1, 1), &empty),
    );
    db.insert_anime(
        "alpha",
        Anime::from_parts("/r/alpha".to_string(), 8, 0, numbered(1, 1), &empty),
    );
    assert_eq!(1, db.animes().len());
    assert_eq!(8, db.get_anime("alpha").unwrap().last_watched());
}
