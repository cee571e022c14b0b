//! The `Episode` data type and its total order.
//!
//! An episode is either numbered (season and episode) or a special
//! (an extra that cannot be numbered, identified by its file name).
//! Numbered episodes order by season, then episode; every numbered
//! episode sorts before every special; specials order by file name.

use vstd::prelude::*;
use vstd::string::StrSliceExecFns;

use crate::pattern::{
    chars_of, file_name, file_name_of, find_episode, find_episode_vec, is_special,
    special_check, strip_noise, strip_noise_vec,
};

verus! {

/// The mathematical value of an [`Episode`]: numbers as unbounded
/// integers, a special's file name as a sequence of characters.
pub enum EpisodeModel {
    Numbered { season: int, episode: int },
    Special { filename: Seq<char> },
}

/// One classified unit of media.
#[derive(Debug)]
pub enum Episode {
    Numbered { season: usize, episode: usize },
    Special { filename: String },
}

impl View for Episode {
    type V = EpisodeModel;

    open spec fn view(&self) -> EpisodeModel {
        match self {
            Episode::Numbered { season, episode } => EpisodeModel::Numbered {
                season: *season as int,
                episode: *episode as int,
            },
            Episode::Special { filename } => EpisodeModel::Special { filename: filename@ },
        }
    }
}

impl DeepView for Episode {
    type V = EpisodeModel;

    open spec fn deep_view(&self) -> EpisodeModel {
        self@
    }
}

/// Three-way comparison of character sequences, code point by code
/// point; the shorter sequence comes first when one is a prefix of
/// the other.
pub open spec fn seq_char_cmp(a: Seq<char>, b: Seq<char>) -> core::cmp::Ordering
    decreases a.len() + b.len(),
{
    if a.len() == 0 && b.len() == 0 {
        core::cmp::Ordering::Equal
    } else if a.len() == 0 {
        core::cmp::Ordering::Less
    } else if b.len() == 0 {
        core::cmp::Ordering::Greater
    } else if a[0] == b[0] {
        seq_char_cmp(a.skip(1), b.skip(1))
    } else if (a[0] as u32) < (b[0] as u32) {
        core::cmp::Ordering::Less
    } else {
        core::cmp::Ordering::Greater
    }
}

/// Distinct characters have distinct code points.
proof fn lemma_char_neq(x: char, y: char)
    requires
        x != y,
    ensures
        (x as u32) != (y as u32),
{
    vstd::utf8::char_u32_cast(x, x as u32);
    vstd::utf8::char_u32_cast(y, y as u32);
}

pub open spec fn seq_char_lt(a: Seq<char>, b: Seq<char>) -> bool {
    seq_char_cmp(a, b) == core::cmp::Ordering::Less
}

/// The strict total order on episodes: among numbered episodes,
/// season before episode; any numbered episode before any special;
/// among specials, file names lexicographically.
pub open spec fn episode_lt(a: EpisodeModel, b: EpisodeModel) -> bool {
    match (a, b) {
        (
            EpisodeModel::Numbered { season: sa, episode: ea },
            EpisodeModel::Numbered { season: sb, episode: eb },
        ) => sa < sb || (sa == sb && ea < eb),
        (EpisodeModel::Numbered { .. }, EpisodeModel::Special { .. }) => true,
        (EpisodeModel::Special { .. }, EpisodeModel::Numbered { .. }) => false,
        (
            EpisodeModel::Special { filename: fa },
            EpisodeModel::Special { filename: fb },
        ) => seq_char_lt(fa, fb),
    }
}

/// Three-way form of [`episode_lt`].
pub open spec fn episode_cmp(a: EpisodeModel, b: EpisodeModel) -> core::cmp::Ordering {
    if episode_lt(a, b) {
        core::cmp::Ordering::Less
    } else if episode_lt(b, a) {
        core::cmp::Ordering::Greater
    } else {
        core::cmp::Ordering::Equal
    }
}

pub proof fn lemma_seq_char_cmp_equal(a: Seq<char>, b: Seq<char>)
    ensures
        seq_char_cmp(a, b) == core::cmp::Ordering::Equal <==> a == b,
    decreases a.len() + b.len(),
{
    if a.len() == 0 && b.len() == 0 {
        assert(a =~= b);
    } else if a.len() == 0 || b.len() == 0 {
        assert(a.len() != b.len());
    } else if a[0] != b[0] {
        assert(seq_char_cmp(a, b) != core::cmp::Ordering::Equal);
    } else {
        lemma_seq_char_cmp_equal(a.skip(1), b.skip(1));
        assert(seq_char_cmp(a, b) == seq_char_cmp(a.skip(1), b.skip(1)));
        if seq_char_cmp(a, b) == core::cmp::Ordering::Equal {
            assert(a.skip(1) == b.skip(1));
            assert forall|i: int| 0 <= i < a.len() implies a[i] == b[i] by {
                if i > 0 {
                    assert(a.skip(1)[i - 1] == a[i]);
                    assert(b.skip(1)[i - 1] == b[i]);
                }
            }
            assert(a =~= b);
        }
        if a == b {
            assert(a.skip(1) == b.skip(1));
        }
    }
}

pub proof fn lemma_seq_char_cmp_flip(a: Seq<char>, b: Seq<char>)
    ensures
        seq_char_cmp(a, b) == core::cmp::Ordering::Less <==> seq_char_cmp(b, a)
            == core::cmp::Ordering::Greater,
    decreases a.len() + b.len(),
{
    if a.len() == 0 || b.len() == 0 {
    } else if a[0] == b[0] {
        lemma_seq_char_cmp_flip(a.skip(1), b.skip(1));
        assert(seq_char_cmp(a, b) == seq_char_cmp(a.skip(1), b.skip(1)));
        assert(seq_char_cmp(b, a) == seq_char_cmp(b.skip(1), a.skip(1)));
    } else {
        lemma_char_neq(a[0], b[0]);
    }
}

pub proof fn lemma_seq_char_lt_trans(a: Seq<char>, b: Seq<char>, c: Seq<char>)
    requires
        seq_char_lt(a, b),
        seq_char_lt(b, c),
    ensures
        seq_char_lt(a, c),
    decreases a.len() + b.len() + c.len(),
{
    assert(b.len() > 0);
    assert(c.len() > 0);
    if a.len() == 0 {
        assert(seq_char_cmp(a, c) == core::cmp::Ordering::Less);
    } else if a[0] == b[0] && b[0] == c[0] {
        assert(seq_char_lt(a.skip(1), b.skip(1)));
        assert(seq_char_lt(b.skip(1), c.skip(1)));
        lemma_seq_char_lt_trans(a.skip(1), b.skip(1), c.skip(1));
        assert(seq_char_cmp(a, c) == seq_char_cmp(a.skip(1), c.skip(1)));
    } else {
        let au = a[0] as u32;
        let bu = b[0] as u32;
        let cu = c[0] as u32;
        assert(au <= bu);
        assert(bu <= cu);
        assert(au < cu);
        assert(a[0] != c[0]);
        assert(seq_char_cmp(a, c) == core::cmp::Ordering::Less);
    }
}

/// Law: the episode order is trichotomous. Of `a < b`, `a == b` and
/// `b < a`, exactly one holds for every pair of episode values.
pub proof fn lemma_episode_order_trichotomy(a: EpisodeModel, b: EpisodeModel)
    ensures
        episode_lt(a, b) || a == b || episode_lt(b, a),
        episode_lt(a, b) ==> a != b && !episode_lt(b, a),
        a == b ==> !episode_lt(a, b) && !episode_lt(b, a),
{
    match (a, b) {
        (
            EpisodeModel::Special { filename: fa },
            EpisodeModel::Special { filename: fb },
        ) => {
            lemma_seq_char_cmp_equal(fa, fb);
            lemma_seq_char_cmp_flip(fa, fb);
            lemma_seq_char_cmp_flip(fb, fa);
        },
        _ => {},
    }
}

/// Law: the episode order is transitive.
pub proof fn lemma_episode_order_transitive(a: EpisodeModel, b: EpisodeModel, c: EpisodeModel)
    requires
        episode_lt(a, b),
        episode_lt(b, c),
    ensures
        episode_lt(a, c),
{
    match (a, c) {
        (
            EpisodeModel::Special { filename: fa },
            EpisodeModel::Special { filename: fc },
        ) => {
            match b {
                EpisodeModel::Special { filename: fb } => {
                    lemma_seq_char_lt_trans(fa, fb, fc);
                },
                _ => {},
            }
        },
        _ => {},
    }
}

/// Law: every numbered episode sorts before every special.
pub proof fn lemma_numbered_before_special(a: EpisodeModel, b: EpisodeModel)
    requires
        a is Numbered,
        b is Special,
    ensures
        episode_lt(a, b),
{
}

/// Three-way comparison of two strings, character by character.
pub fn str_char_cmp(a: &str, b: &str) -> (r: core::cmp::Ordering)
    ensures
        r == seq_char_cmp(a@, b@),
{
    let a_len = a.unicode_len();
    let b_len = b.unicode_len();
    let mut i: usize = 0;
    proof {
        assert(a@.skip(0) =~= a@);
        assert(b@.skip(0) =~= b@);
    }
    loop
        invariant
            i <= a_len,
            i <= b_len,
            a_len == a@.len(),
            b_len == b@.len(),
            seq_char_cmp(a@, b@) == seq_char_cmp(a@.skip(i as int), b@.skip(i as int)),
        decreases a_len - i,
    {
        if i == a_len && i == b_len {
            return core::cmp::Ordering::Equal;
        }
        if i == a_len {
            return core::cmp::Ordering::Less;
        }
        if i == b_len {
            return core::cmp::Ordering::Greater;
        }
        let ca = a.get_char(i);
        let cb = b.get_char(i);
        if ca == cb {
            proof {
                assert(a@.skip(i as int).skip(1) =~= a@.skip(i + 1));
                assert(b@.skip(i as int).skip(1) =~= b@.skip(i + 1));
            }
            i = i + 1;
        } else if (ca as u32) < (cb as u32) {
            return core::cmp::Ordering::Less;
        } else {
            proof {
                lemma_char_neq(ca, cb);
            }
            return core::cmp::Ordering::Greater;
        }
    }
}

impl Episode {
    /// Three-way comparison in the episode order.
    pub fn cmp_order(&self, other: &Episode) -> (r: core::cmp::Ordering)
        ensures
            r == episode_cmp(self@, other@),
    {
        proof {
            lemma_episode_order_trichotomy(self@, other@);
        }
        match (self, other) {
            (
                Episode::Numbered { season: sa, episode: ea },
                Episode::Numbered { season: sb, episode: eb },
            ) => {
                if *sa < *sb {
                    core::cmp::Ordering::Less
                } else if *sb < *sa {
                    core::cmp::Ordering::Greater
                } else if *ea < *eb {
                    core::cmp::Ordering::Less
                } else if *eb < *ea {
                    core::cmp::Ordering::Greater
                } else {
                    core::cmp::Ordering::Equal
                }
            },
            (Episode::Numbered { .. }, Episode::Special { .. }) => core::cmp::Ordering::Less,
            (Episode::Special { .. }, Episode::Numbered { .. }) => core::cmp::Ordering::Greater,
            (
                Episode::Special { filename: fa },
                Episode::Special { filename: fb },
            ) => {
                let c = str_char_cmp(fa.as_str(), fb.as_str());
                proof {
                    lemma_seq_char_cmp_equal(fa@, fb@);
                    lemma_seq_char_cmp_flip(fa@, fb@);
                }
                c
            },
        }
    }
}

impl Clone for Episode {
    fn clone(&self) -> (r: Episode)
        ensures
            r == *self,
    {
        match self {
            Episode::Numbered { season, episode } => Episode::Numbered {
                season: *season,
                episode: *episode,
            },
            Episode::Special { filename } => Episode::Special { filename: filename.clone() },
        }
    }
}

impl PartialEq for Episode {
    fn eq(&self, other: &Episode) -> (r: bool) {
        match (self, other) {
            (
                Episode::Numbered { season: sa, episode: ea },
                Episode::Numbered { season: sb, episode: eb },
            ) => *sa == *sb && *ea == *eb,
            (
                Episode::Special { filename: fa },
                Episode::Special { filename: fb },
            ) => *fa == *fb,
            _ => false,
        }
    }
}

impl vstd::std_specs::cmp::PartialEqSpecImpl for Episode {
    open spec fn obeys_eq_spec() -> bool {
        true
    }

    open spec fn eq_spec(&self, other: &Episode) -> bool {
        self@ == other@
    }
}

impl PartialOrd for Episode {
    fn partial_cmp(&self, other: &Episode) -> (r: Option<core::cmp::Ordering>) {
        Some(self.cmp_order(other))
    }
}

impl vstd::std_specs::cmp::PartialOrdSpecImpl for Episode {
    open spec fn obeys_partial_cmp_spec() -> bool {
        true
    }

    open spec fn partial_cmp_spec(&self, other: &Episode) -> Option<core::cmp::Ordering> {
        Some(episode_cmp(self@, other@))
    }
}

impl From<(usize, usize)> for Episode {
    fn from(pair: (usize, usize)) -> (r: Episode) {
        Episode::Numbered { season: pair.0, episode: pair.1 }
    }
}

impl vstd::std_specs::convert::FromSpecImpl<(usize, usize)> for Episode {
    open spec fn obeys_from_spec() -> bool {
        true
    }

    open spec fn from_spec(pair: (usize, usize)) -> Episode {
        Episode::Numbered { season: pair.0, episode: pair.1 }
    }
}

// ---------------------------------------------------------------------
// Classification
// ---------------------------------------------------------------------

/// A structural failure of classification. Ambiguous names never
/// fail; they classify as specials.
#[derive(Debug, PartialEq, Eq, Structural, Clone, Copy)]
pub enum EpisodeParseError {
    /// The path has no file-name component.
    InvalidFile,
    /// The file name is not representable as text. A path that
    /// arrives as a string never produces it; the variant is part of
    /// the classifier's vocabulary for callers that hold raw paths.
    UTF8,
}

/// What classification returns for a path. A path with a special
/// marker, and one in which no episode pattern is found, classify as a
/// special named by the path's file-name component; otherwise the
/// leftmost episode match of the noise-stripped path decides.
pub open spec fn classify_spec(p: Seq<char>) -> Result<EpisodeModel, EpisodeParseError> {
    if is_special(p) {
        match file_name_of(p) {
            Some(f) => Ok(EpisodeModel::Special { filename: f }),
            None => Err(EpisodeParseError::InvalidFile),
        }
    } else {
        match find_episode(strip_noise(p)) {
            Some(se) => Ok(EpisodeModel::Numbered { season: se.0, episode: se.1 }),
            None => match file_name_of(p) {
                Some(f) => Ok(EpisodeModel::Special { filename: f }),
                None => Err(EpisodeParseError::InvalidFile),
            },
        }
    }
}

impl Episode {
    /// Classifies a path into an episode. Pure: only the path string
    /// is read, so equal paths always classify alike.
    pub fn from_str(path: &str) -> (r: Result<Episode, EpisodeParseError>)
        ensures
            match r {
                Ok(ep) => classify_spec(path@) == Ok::<EpisodeModel, EpisodeParseError>(ep@),
                Err(e) => classify_spec(path@) == Err::<EpisodeModel, EpisodeParseError>(e),
            },
    {
        let v = chars_of(path);
        if special_check(&v) {
            match file_name(path) {
                Some(f) => Ok(Episode::Special { filename: f }),
                None => Err(EpisodeParseError::InvalidFile),
            }
        } else {
            let stripped = strip_noise_vec(&v);
            match find_episode_vec(&stripped) {
                Some(se) => Ok(Episode::Numbered { season: se.0, episode: se.1 }),
                None => match file_name(path) {
                    Some(f) => Ok(Episode::Special { filename: f }),
                    None => Err(EpisodeParseError::InvalidFile),
                },
            }
        }
    }
}


} // verus!
