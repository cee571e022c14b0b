use anime_database_lib::episode::{Episode, EpisodeParseError};

#[test]
fn episode_sort_0() {
    let a = Episode::Numbered {
        season: 1,
        episode: 1,
    };
    let b = Episode::Numbered {
        season: 1,
        episode: 2,
    };
    assert!(a < b);
}

#[test]
fn episode_sort_1() {
    let a = Episode::Numbered {
        season: 1,
        episode: 2,
    };
    let b = Episode::Numbered {
        season: 2,
        episode: 1,
    };
    assert!(a < b);
}

#[test]
fn episode_sort_2() {
    let a = Episode::Special {
        filename: String::from("abc"),
    };
    let b = Episode::Numbered {
        season: 2,
        episode: 1,
    };
    assert!(a > b);
}

#[test]
fn episode_sort_3() {
    let a = Episode::Numbered {
        season: 2,
        episode: 1,
    };
    let b = Episode::Special {
        filename: String::from("abc"),
    };
    assert!(a < b);
}

#[test]
fn episode_from_str_0() {
    let filename = r"[sam] Vinland Saga - 24 [BD 1080p FLAC] [6696F95B].mkv".to_string();
    assert_eq!(
        Ok(Episode::Numbered {
            season: 1,
            episode: 24,
        }),
        Episode::from_str(&filename)
    );
}

#[test]
fn episode_from_str_1() {
    let filename =
        r"Girls.und.Panzer.S01E04.1080p-Hi10p.BluRay.FLAC2.1.x264-CTR.[1123C40D].mkv"
            .to_string();
    assert_eq!(
        Ok(Episode::Numbered {
            season: 1,
            episode: 4,
        }),
        Episode::from_str(&filename)
    );
}

#[test]
fn episode_from_str_2() {
    let filename = r"[Datte13] Yuyushiki - S01E12 - Uneventful Good Life.mkv".to_string();
    assert_eq!(
        Ok(Episode::Numbered {
            season: 1,
            episode: 12,
        }),
        Episode::from_str(&filename)
    );
}

#[test]
fn episode_from_str_3() {
    let filename = r"[Arid] Sound! Euphonium - Creditless OP [D04F5D1D].mkv".to_string();
    assert_eq!(
        Ok(Episode::Special {
            filename: filename.clone()
        }),
        Episode::from_str(&filename)
    );
}

// Classification is a pure function of the path, so repeating a call
// must give the identical value.
#[test]
fn classify_deterministic() {
    let inputs = [
        r"[sam] Vinland Saga - 24 [BD 1080p FLAC] [6696F95B].mkv",
        r"Girls.und.Panzer.S01E04.1080p-Hi10p.BluRay.FLAC2.1.x264-CTR.[1123C40D].mkv",
        r"[Datte13] Yuyushiki - S01E12 - Uneventful Good Life.mkv",
        r"[Arid] Sound! Euphonium - Creditless OP [D04F5D1D].mkv",
    ];
    for path in inputs {
        assert_eq!(Episode::from_str(path), Episode::from_str(path));
    }
}

#[test]
fn classify_strips_resolution_before_matching() {
    // Without stripping, "1080" could be read as an episode number.
    let filename = "[A] Some Show - 03 [1080p].mkv";
    assert_eq!(
        Ok(Episode::Numbered {
            season: 1,
            episode: 3,
        }),
        Episode::from_str(filename)
    );
}

#[test]
fn classify_full_path_keeps_basename_for_special() {
    let path = "/library/Show/Show NCOP 1 [BD].mkv";
    assert_eq!(
        Ok(Episode::Special {
            filename: "Show NCOP 1 [BD].mkv".to_string()
        }),
        Episode::from_str(path)
    );
}

#[test]
fn classify_special_wins_over_episode_pattern() {
    // " OP " is a credit-less token even though " 05 " would match an
    // episode number.
    let filename = "[A] Show - 05 OP - extra.mkv";
    assert_eq!(
        Ok(Episode::Special {
            filename: filename.to_string()
        }),
        Episode::from_str(filename)
    );
}

#[test]
fn classify_unparseable_becomes_special() {
    let filename = "just-some-notes.mkv";
    assert_eq!(
        Ok(Episode::Special {
            filename: filename.to_string()
        }),
        Episode::from_str(filename)
    );
}

#[test]
fn classify_invalid_file_component() {
    assert_eq!(
        Err(EpisodeParseError::InvalidFile),
        Episode::from_str("..")
    );
    assert_eq!(Err(EpisodeParseError::InvalidFile), Episode::from_str(""));
    assert_eq!(
        Err(EpisodeParseError::InvalidFile),
        Episode::from_str("notes/..")
    );
}

#[test]
fn classify_season_and_zero_episode() {
    assert_eq!(
        Ok(Episode::Numbered {
            season: 2,
            episode: 0,
        }),
        Episode::from_str("Show S02E00.mkv")
    );
}

#[test]
fn classify_lowercase_season_marker() {
    assert_eq!(
        Ok(Episode::Numbered {
            season: 3,
            episode: 7,
        }),
        Episode::from_str("show s03e07 final.mkv")
    );
}

#[test]
fn episode_equality_is_structural() {
    let a = Episode::Special {
        filename: String::from("abc"),
    };
    let b = Episode::Special {
        filename: String::from("abc"),
    };
    let c = Episode::Special {
        filename: String::from("abd"),
    };
    assert_eq!(a, b);
    assert_ne!(a, c);
    assert!(a < c);
    assert!(c > a);
}

#[test]
fn episode_order_season_before_episode() {
    let a = Episode::from((1, 9));
    let b = Episode::from((2, 0));
    assert!(a < b);
    assert!(b >= a);
    assert_eq!(Episode::from((4, 2)), Episode::Numbered { season: 4, episode: 2 });
}
