//! Shows, their episode maps, and the catalog of shows.
//!
//! A show's episode map is kept sorted by the episode order at all
//! times, with one bucket of file paths per episode and no duplicate
//! path inside a bucket. Synchronizing the same files again therefore
//! changes nothing: see [`lemma_sync_idempotent`].

use vstd::prelude::*;

use crate::episode::{
    classify_spec, episode_lt, lemma_episode_order_trichotomy, lemma_episode_order_transitive,
    lemma_seq_char_cmp_equal, lemma_seq_char_cmp_flip, lemma_seq_char_lt_trans, seq_char_lt,
    str_char_cmp, Episode, EpisodeModel,
};
use crate::pattern::video_ext;
use crate::pattern::video_ext_check;

verus! {

/// A show's episodes: each episode key maps to the bucket of file
/// paths that hold a release of it.
pub type EpisodeMap = Vec<(Episode, Vec<String>)>;

/// The mathematical value of an [`EpisodeMap`].
pub type EpisodeMapModel = Seq<(EpisodeModel, Seq<Seq<char>>)>;

/// The character sequences of a list of path strings.
pub open spec fn paths_model(ps: Seq<String>) -> Seq<Seq<char>> {
    ps.map_values(|s: String| s@)
}

pub open spec fn map_model(m: Seq<(Episode, Vec<String>)>) -> EpisodeMapModel {
    m.map_values(|e: (Episode, Vec<String>)| (e.0@, paths_model(e.1@)))
}

/// Keys strictly increase in the episode order; in particular every
/// episode occurs at most once.
pub open spec fn map_sorted(m: EpisodeMapModel) -> bool {
    forall|i: int, j: int| 0 <= i < j < m.len() ==> episode_lt(m[i].0, m[j].0)
}

pub open spec fn map_has_key(m: EpisodeMapModel, ep: EpisodeModel) -> bool {
    exists|i: int| 0 <= i < m.len() && m[i].0 == ep
}

pub open spec fn map_has_entry(m: EpisodeMapModel, ep: EpisodeModel, path: Seq<char>) -> bool {
    exists|i: int| 0 <= i < m.len() && m[i].0 == ep && m[i].1.contains(path)
}

/// One merge step: append `path` to the bucket of `ep`, keeping the
/// map sorted, creating the bucket if the episode is new, and leaving
/// the map unchanged when the bucket already holds this path.
pub open spec fn merge_one(m: EpisodeMapModel, ep: EpisodeModel, path: Seq<char>) -> EpisodeMapModel
    decreases m.len(),
{
    if m.len() == 0 {
        seq![(ep, seq![path])]
    } else if m[0].0 == ep {
        if m[0].1.contains(path) {
            m
        } else {
            seq![(ep, m[0].1.push(path))] + m.skip(1)
        }
    } else if episode_lt(ep, m[0].0) {
        seq![(ep, seq![path])] + m
    } else {
        seq![m[0]] + merge_one(m.skip(1), ep, path)
    }
}

/// Keys of the merge result: the old keys, plus possibly `ep`.
proof fn lemma_merge_one_keys(m: EpisodeMapModel, ep: EpisodeModel, path: Seq<char>)
    ensures
        forall|k: int|
            0 <= k < merge_one(m, ep, path).len() ==> #[trigger] merge_one(m, ep, path)[k].0 == ep
                || map_has_key(m, merge_one(m, ep, path)[k].0),
    decreases m.len(),
{
    let r = merge_one(m, ep, path);
    if m.len() == 0 {
    } else if m[0].0 == ep {
        assert forall|k: int| 0 <= k < r.len() implies #[trigger] r[k].0 == ep || map_has_key(
            m,
            r[k].0,
        ) by {
            if k > 0 {
                assert(r[k].0 == m[k].0);
            }
        }
    } else if episode_lt(ep, m[0].0) {
        assert forall|k: int| 0 <= k < r.len() implies #[trigger] r[k].0 == ep || map_has_key(
            m,
            r[k].0,
        ) by {
            if k > 0 {
                assert(r[k].0 == m[k - 1].0);
            }
        }
    } else {
        lemma_merge_one_keys(m.skip(1), ep, path);
        assert forall|k: int| 0 <= k < r.len() implies #[trigger] r[k].0 == ep || map_has_key(
            m,
            r[k].0,
        ) by {
            if k > 0 {
                assert(r[k].0 == merge_one(m.skip(1), ep, path)[k - 1].0);
                if merge_one(m.skip(1), ep, path)[k - 1].0 != ep {
                    let i = choose|i: int|
                        0 <= i < m.skip(1).len() && m.skip(1)[i].0 == merge_one(
                            m.skip(1),
                            ep,
                            path,
                        )[k - 1].0;
                    assert(m[i + 1].0 == r[k].0);
                }
            }
        }
    }
}

/// Merging preserves sortedness.
proof fn lemma_merge_one_sorted(m: EpisodeMapModel, ep: EpisodeModel, path: Seq<char>)
    requires
        map_sorted(m),
    ensures
        map_sorted(merge_one(m, ep, path)),
    decreases m.len(),
{
    let r = merge_one(m, ep, path);
    if m.len() == 0 {
    } else if m[0].0 == ep {
        if !m[0].1.contains(path) {
            assert forall|i: int, j: int| 0 <= i < j < r.len() implies episode_lt(
                r[i].0,
                r[j].0,
            ) by {
                assert(r[j].0 == m[j].0);
                if i > 0 {
                    assert(r[i].0 == m[i].0);
                }
            }
        }
    } else if episode_lt(ep, m[0].0) {
        assert forall|i: int, j: int| 0 <= i < j < r.len() implies episode_lt(r[i].0, r[j].0) by {
            assert(r[j].0 == m[j - 1].0);
            if i > 0 {
                assert(r[i].0 == m[i - 1].0);
                assert(episode_lt(m[i - 1].0, m[j - 1].0));
            } else {
                if j - 1 > 0 {
                    lemma_episode_order_transitive(ep, m[0].0, m[j - 1].0);
                }
            }
        }
    } else {
        let tail = m.skip(1);
        assert(map_sorted(tail)) by {
            assert forall|i: int, j: int| 0 <= i < j < tail.len() implies episode_lt(
                tail[i].0,
                tail[j].0,
            ) by {
                assert(tail[i].0 == m[i + 1].0);
                assert(tail[j].0 == m[j + 1].0);
            }
        }
        lemma_merge_one_sorted(tail, ep, path);
        lemma_merge_one_keys(tail, ep, path);
        lemma_episode_order_trichotomy(m[0].0, ep);
        let rt = merge_one(tail, ep, path);
        assert forall|i: int, j: int| 0 <= i < j < r.len() implies episode_lt(r[i].0, r[j].0) by {
            if i > 0 {
                assert(r[i].0 == rt[i - 1].0);
                assert(r[j].0 == rt[j - 1].0);
            } else {
                assert(r[0].0 == m[0].0);
                assert(r[j].0 == rt[j - 1].0);
                if rt[j - 1].0 == ep {
                    assert(episode_lt(m[0].0, ep));
                } else {
                    let k = choose|k: int| 0 <= k < tail.len() && tail[k].0 == rt[j - 1].0;
                    assert(tail[k].0 == m[k + 1].0);
                    assert(episode_lt(m[0].0, m[k + 1].0));
                }
            }
        }
    }
}

/// After a merge the entry is present.
proof fn lemma_merge_one_adds(m: EpisodeMapModel, ep: EpisodeModel, path: Seq<char>)
    ensures
        map_has_entry(merge_one(m, ep, path), ep, path),
    decreases m.len(),
{
    let r = merge_one(m, ep, path);
    if m.len() == 0 {
        assert(r[0] == (ep, seq![path]));
        assert(seq![path][0] == path);
        assert(r[0].0 == ep && r[0].1.contains(path));
    } else if m[0].0 == ep {
        if m[0].1.contains(path) {
            assert(r[0].0 == ep && r[0].1.contains(path));
        } else {
            let nb = m[0].1.push(path);
            assert(r == seq![(ep, nb)] + m.skip(1));
            assert(r[0] == (ep, nb));
            assert(nb[m[0].1.len() as int] == path);
            assert(r[0].0 == ep && r[0].1.contains(path));
        }
    } else if episode_lt(ep, m[0].0) {
        assert(r[0] == (ep, seq![path]));
        assert(seq![path][0] == path);
        assert(r[0].0 == ep && r[0].1.contains(path));
    } else {
        lemma_merge_one_adds(m.skip(1), ep, path);
        let rt = merge_one(m.skip(1), ep, path);
        let i = choose|i: int| 0 <= i < rt.len() && rt[i].0 == ep && rt[i].1.contains(path);
        assert(r[i + 1].0 == ep && r[i + 1].1.contains(path));
    }
}

/// A merge never removes an entry.
proof fn lemma_merge_one_keeps(
    m: EpisodeMapModel,
    ep: EpisodeModel,
    path: Seq<char>,
    ep2: EpisodeModel,
    path2: Seq<char>,
)
    requires
        map_has_entry(m, ep2, path2),
    ensures
        map_has_entry(merge_one(m, ep, path), ep2, path2),
    decreases m.len(),
{
    let r = merge_one(m, ep, path);
    let w = choose|w: int| 0 <= w < m.len() && m[w].0 == ep2 && m[w].1.contains(path2);
    if m.len() == 0 {
    } else if m[0].0 == ep {
        if m[0].1.contains(path) {
        } else {
            if w == 0 {
                let pi = choose|pi: int| 0 <= pi < m[0].1.len() && m[0].1[pi] == path2;
                assert(r[0].1[pi] == path2);
                assert(r[0].0 == ep2 && r[0].1.contains(path2));
            } else {
                assert(r[w].0 == m[w].0 && r[w].1 == m[w].1);
                assert(r[w].0 == ep2 && r[w].1.contains(path2));
            }
        }
    } else if episode_lt(ep, m[0].0) {
        assert(r[w + 1].0 == ep2 && r[w + 1].1.contains(path2));
    } else {
        if w == 0 {
            assert(r[0].0 == ep2 && r[0].1.contains(path2));
        } else {
            let tail = m.skip(1);
            assert(tail[w - 1].0 == ep2 && tail[w - 1].1.contains(path2));
            assert(map_has_entry(tail, ep2, path2));
            lemma_merge_one_keeps(tail, ep, path, ep2, path2);
            let rt = merge_one(tail, ep, path);
            let k = choose|k: int| 0 <= k < rt.len() && rt[k].0 == ep2 && rt[k].1.contains(path2);
            assert(r[k + 1].0 == ep2 && r[k + 1].1.contains(path2));
        }
    }
}

/// Merging an entry the map already holds changes nothing.
proof fn lemma_merge_one_noop(m: EpisodeMapModel, ep: EpisodeModel, path: Seq<char>)
    requires
        map_sorted(m),
        map_has_entry(m, ep, path),
    ensures
        merge_one(m, ep, path) == m,
    decreases m.len(),
{
    let w = choose|w: int| 0 <= w < m.len() && m[w].0 == ep && m[w].1.contains(path);
    if m[0].0 == ep {
        if w > 0 {
            assert(episode_lt(m[0].0, m[w].0));
            lemma_episode_order_trichotomy(m[0].0, m[w].0);
        }
        assert(m[0].1.contains(path));
    } else {
        lemma_episode_order_trichotomy(ep, m[0].0);
        if episode_lt(ep, m[0].0) {
            if w > 0 {
                lemma_episode_order_transitive(ep, m[0].0, m[w].0);
            }
            lemma_episode_order_trichotomy(ep, m[w].0);
            assert(false);
        } else {
            let tail = m.skip(1);
            assert(w > 0);
            assert(tail[w - 1].0 == ep && tail[w - 1].1.contains(path));
            assert(map_sorted(tail)) by {
                assert forall|i: int, j: int| 0 <= i < j < tail.len() implies episode_lt(
                    tail[i].0,
                    tail[j].0,
                ) by {
                    assert(tail[i].0 == m[i + 1].0);
                    assert(tail[j].0 == m[j + 1].0);
                }
            }
            lemma_merge_one_noop(tail, ep, path);
            assert(seq![m[0]] + merge_one(tail, ep, path) =~= m);
        }
    }
}

/// One synchronization step for one file: a video file that
/// classifies successfully is merged under its episode; every other
/// file is skipped.
pub open spec fn classify_merge(m: EpisodeMapModel, path: Seq<char>) -> EpisodeMapModel {
    if video_ext(path) && classify_spec(path) is Ok {
        merge_one(m, classify_spec(path)->Ok_0, path)
    } else {
        m
    }
}

/// One synchronization pass, folded over a list of file paths in
/// order.
pub open spec fn sync_files(m: EpisodeMapModel, files: Seq<Seq<char>>) -> EpisodeMapModel
    decreases files.len(),
{
    if files.len() == 0 {
        m
    } else {
        classify_merge(sync_files(m, files.drop_last()), files.last())
    }
}

proof fn lemma_sync_sorted(m: EpisodeMapModel, files: Seq<Seq<char>>)
    requires
        map_sorted(m),
    ensures
        map_sorted(sync_files(m, files)),
    decreases files.len(),
{
    if files.len() > 0 {
        lemma_sync_sorted(m, files.drop_last());
        let s = sync_files(m, files.drop_last());
        let f = files.last();
        if video_ext(f) && classify_spec(f) is Ok {
            lemma_merge_one_sorted(s, classify_spec(f)->Ok_0, f);
        }
    }
}

/// After a pass, every video file that classified successfully is
/// recorded under its episode.
proof fn lemma_sync_contains(m: EpisodeMapModel, files: Seq<Seq<char>>)
    ensures
        forall|k: int|
            0 <= k < files.len() && video_ext(#[trigger] files[k]) && classify_spec(files[k])
                is Ok ==> map_has_entry(
                sync_files(m, files),
                classify_spec(files[k])->Ok_0,
                files[k],
            ),
    decreases files.len(),
{
    if files.len() > 0 {
        let butlast = files.drop_last();
        let s = sync_files(m, butlast);
        let f = files.last();
        lemma_sync_contains(m, butlast);
        assert forall|k: int|
            0 <= k < files.len() && video_ext(#[trigger] files[k]) && classify_spec(files[k])
                is Ok implies map_has_entry(
            sync_files(m, files),
            classify_spec(files[k])->Ok_0,
            files[k],
        ) by {
            if k < files.len() - 1 {
                assert(butlast[k] == files[k]);
                assert(map_has_entry(s, classify_spec(files[k])->Ok_0, files[k]));
                if video_ext(f) && classify_spec(f) is Ok {
                    lemma_merge_one_keeps(
                        s,
                        classify_spec(f)->Ok_0,
                        f,
                        classify_spec(files[k])->Ok_0,
                        files[k],
                    );
                }
            } else {
                assert(files[k] == f);
                lemma_merge_one_adds(s, classify_spec(f)->Ok_0, f);
            }
        }
    }
}

/// A pass that brings nothing new leaves the map untouched.
proof fn lemma_sync_noop(m: EpisodeMapModel, files: Seq<Seq<char>>)
    requires
        map_sorted(m),
        forall|k: int|
            0 <= k < files.len() && video_ext(#[trigger] files[k]) && classify_spec(files[k])
                is Ok ==> map_has_entry(m, classify_spec(files[k])->Ok_0, files[k]),
    ensures
        sync_files(m, files) == m,
    decreases files.len(),
{
    if files.len() > 0 {
        let butlast = files.drop_last();
        let f = files.last();
        assert forall|k: int|
            0 <= k < butlast.len() && video_ext(#[trigger] butlast[k]) && classify_spec(
                butlast[k],
            ) is Ok implies map_has_entry(m, classify_spec(butlast[k])->Ok_0, butlast[k]) by {
            assert(butlast[k] == files[k]);
        }
        lemma_sync_noop(m, butlast);
        if video_ext(f) && classify_spec(f) is Ok {
            assert(files[files.len() - 1] == f);
            lemma_merge_one_noop(m, classify_spec(f)->Ok_0, f);
        }
    }
}

/// Law: synchronizing the same files twice yields exactly the map
/// that synchronizing them once yields: the same keys and the same
/// bucket contents, in the same order.
pub proof fn lemma_sync_idempotent(m: EpisodeMapModel, files: Seq<Seq<char>>)
    requires
        map_sorted(m),
    ensures
        sync_files(sync_files(m, files), files) == sync_files(m, files),
{
    let s1 = sync_files(m, files);
    lemma_sync_sorted(m, files);
    lemma_sync_contains(m, files);
    lemma_sync_noop(s1, files);
}

/// Merges every path of one bucket, in order.
pub open spec fn merge_bucket(m: EpisodeMapModel, ep: EpisodeModel, b: Seq<Seq<char>>) -> EpisodeMapModel
    decreases b.len(),
{
    if b.len() == 0 {
        m
    } else {
        merge_one(merge_bucket(m, ep, b.drop_last()), ep, b.last())
    }
}

/// Folds whole entries into a map, entry by entry, path by path.
pub open spec fn rebuild(m: EpisodeMapModel, entries: EpisodeMapModel) -> EpisodeMapModel
    decreases entries.len(),
{
    if entries.len() == 0 {
        m
    } else {
        merge_bucket(rebuild(m, entries.drop_last()), entries.last().0, entries.last().1)
    }
}

proof fn lemma_merge_bucket_sorted(m: EpisodeMapModel, ep: EpisodeModel, b: Seq<Seq<char>>)
    requires
        map_sorted(m),
    ensures
        map_sorted(merge_bucket(m, ep, b)),
    decreases b.len(),
{
    if b.len() > 0 {
        lemma_merge_bucket_sorted(m, ep, b.drop_last());
        lemma_merge_one_sorted(merge_bucket(m, ep, b.drop_last()), ep, b.last());
    }
}

proof fn lemma_rebuild_sorted(m: EpisodeMapModel, entries: EpisodeMapModel)
    requires
        map_sorted(m),
    ensures
        map_sorted(rebuild(m, entries)),
    decreases entries.len(),
{
    if entries.len() > 0 {
        lemma_rebuild_sorted(m, entries.drop_last());
        lemma_merge_bucket_sorted(
            rebuild(m, entries.drop_last()),
            entries.last().0,
            entries.last().1,
        );
    }
}

/// The merge result, read off the insertion point that a scan of the
/// sorted map finds.
proof fn lemma_merge_one_split(m: EpisodeMapModel, ep: EpisodeModel, path: Seq<char>, i: int)
    requires
        map_sorted(m),
        0 <= i <= m.len(),
        forall|j: int| 0 <= j < i ==> episode_lt(m[j].0, ep),
        i < m.len() ==> !episode_lt(m[i].0, ep),
    ensures
        merge_one(m, ep, path) == (if i < m.len() && m[i].0 == ep {
            if m[i].1.contains(path) {
                m
            } else {
                m.update(i, (ep, m[i].1.push(path)))
            }
        } else {
            m.subrange(0, i).push((ep, seq![path])) + m.subrange(i, m.len() as int)
        }),
    decreases m.len(),
{
    if i == 0 {
        if m.len() == 0 {
            assert(merge_one(m, ep, path) =~~= m.subrange(0, 0).push((ep, seq![path]))
                + m.subrange(0, 0));
        } else if m[0].0 == ep {
            if !m[0].1.contains(path) {
                assert(seq![(ep, m[0].1.push(path))] + m.skip(1) =~~= m.update(
                    0,
                    (ep, m[0].1.push(path)),
                ));
            }
        } else {
            lemma_episode_order_trichotomy(ep, m[0].0);
            assert(episode_lt(ep, m[0].0));
            assert(seq![(ep, seq![path])] + m =~~= m.subrange(0, 0).push((ep, seq![path]))
                + m.subrange(0, m.len() as int));
        }
    } else {
        assert(episode_lt(m[0].0, ep));
        lemma_episode_order_trichotomy(m[0].0, ep);
        let tail = m.skip(1);
        assert(map_sorted(tail)) by {
            assert forall|a: int, b: int| 0 <= a < b < tail.len() implies episode_lt(
                tail[a].0,
                tail[b].0,
            ) by {
                assert(tail[a].0 == m[a + 1].0);
                assert(tail[b].0 == m[b + 1].0);
            }
        }
        assert forall|j: int| 0 <= j < i - 1 implies episode_lt(#[trigger] tail[j].0, ep) by {
            assert(tail[j].0 == m[j + 1].0);
        }
        assert(i - 1 < tail.len() ==> !episode_lt(tail[i - 1].0, ep));
        lemma_merge_one_split(tail, ep, path, i - 1);
        let rt = merge_one(tail, ep, path);
        assert(merge_one(m, ep, path) == seq![m[0]] + rt);
        if i < m.len() && m[i].0 == ep {
            assert(tail[i - 1].0 == ep);
            if m[i].1.contains(path) {
                assert(tail[i - 1].1.contains(path));
                assert(seq![m[0]] + tail =~~= m);
            } else {
                assert(tail[i - 1].1 == m[i].1);
                assert(seq![m[0]] + tail.update(i - 1, (ep, tail[i - 1].1.push(path))) =~~= m.update(
                    i,
                    (ep, m[i].1.push(path)),
                ));
            }
        } else {
            assert(i < m.len() ==> tail[i - 1].0 == m[i].0);
            assert(seq![m[0]] + (tail.subrange(0, i - 1).push((ep, seq![path])) + tail.subrange(
                i - 1,
                tail.len() as int,
            )) =~~= m.subrange(0, i).push((ep, seq![path])) + m.subrange(i, m.len() as int));
        }
    }
}

/// Index where `ep` belongs in the sorted map: the first position
/// whose key is not below `ep`.
fn find_insert_pos(map: &EpisodeMap, ep: &Episode) -> (i: usize)
    ensures
        i <= map@.len(),
        forall|j: int| 0 <= j < i ==> episode_lt(map_model(map@)[j].0, ep@),
        i < map@.len() ==> !episode_lt(map_model(map@)[i as int].0, ep@),
{
    let n = map.len();
    let mut i: usize = 0;
    while i < n
        invariant
            i <= n,
            n == map@.len(),
            forall|j: int| 0 <= j < i ==> episode_lt(map_model(map@)[j].0, ep@),
        decreases n - i,
    {
        let c = map[i].0.cmp_order(ep);
        if !matches!(c, core::cmp::Ordering::Less) {
            return i;
        }
        assert(map_model(map@)[i as int].0 == map@[i as int].0@);
        i = i + 1;
    }
    i
}

fn bucket_contains(b: &Vec<String>, path: &String) -> (r: bool)
    ensures
        r == paths_model(b@).contains(path@),
{
    let n = b.len();
    let mut i: usize = 0;
    while i < n
        invariant
            i <= n,
            n == b@.len(),
            forall|j: int| 0 <= j < i ==> paths_model(b@)[j] != path@,
        decreases n - i,
    {
        assert(paths_model(b@)[i as int] == b@[i as int]@);
        if b[i] == *path {
            return true;
        }
        i = i + 1;
    }
    assert(!paths_model(b@).contains(path@));
    false
}

/// Merges one classified file into the sorted episode map, as
/// [`merge_one`] describes.
fn merge_into(map: &mut EpisodeMap, ep: Episode, path: String)
    requires
        map_sorted(map_model(old(map)@)),
    ensures
        map_model(final(map)@) == merge_one(map_model(old(map)@), ep@, path@),
        map_sorted(map_model(final(map)@)),
{
    let ghost m0 = map_model(old(map)@);
    let ghost path_s = path;
    let ghost path_v = path@;
    let ghost ep_v = ep@;
    proof {
        lemma_merge_one_sorted(m0, ep_v, path_v);
    }
    let i = find_insert_pos(map, &ep);
    proof {
        lemma_merge_one_split(m0, ep_v, path_v, i as int);
    }
    if i < map.len() && map[i].0 == ep {
        proof {
            assert(m0[i as int].0 == map@[i as int].0@);
            assert(m0[i as int].1 == paths_model(map@[i as int].1@));
        }
        if !bucket_contains(&map[i].1, &path) {
            let ghost orig = map@;
            let mut entry = map.remove(i);
            entry.1.push(path);
            map.insert(i, entry);
            proof {
                assert(map@ =~= orig.update(i as int, map@[i as int]));
                assert(map@[i as int].0 == orig[i as int].0);
                assert(map@[i as int].1@ == orig[i as int].1@.push(path_s));
                assert(paths_model(orig[i as int].1@.push(path_s)) =~= paths_model(
                    orig[i as int].1@,
                ).push(path_v));
                assert(map_model(map@) =~~= m0.update(
                    i as int,
                    (ep_v, m0[i as int].1.push(path_v)),
                ));
            }
        }
    } else {
        let mut b: Vec<String> = Vec::new();
        b.push(path);
        proof {
            assert(b@ =~= seq![path_s]);
        }
        map.insert(i, (ep, b));
        proof {
            assert(paths_model(seq![path_s]) =~= seq![path_v]);
            assert(map_model(map@) =~~= m0.subrange(0, i as int).push((ep_v, seq![path_v]))
                + m0.subrange(i as int, m0.len() as int));
        }
    }
}


// ---------------------------------------------------------------------
// Shows
// ---------------------------------------------------------------------

/// The mathematical value of an [`Anime`].
pub struct AnimeModel {
    pub path: Seq<char>,
    pub last_watched: u64,
    pub last_updated: u64,
    pub current_episode: EpisodeModel,
    pub episodes: EpisodeMapModel,
}

/// One tracked show: its directory path, its watch progress, and its
/// episode map.
#[derive(Debug)]
pub struct Anime {
    path: String,
    last_watched: u64,
    last_updated: u64,
    current_episode: Episode,
    episodes: EpisodeMap,
}

/// The error of a rejected watched-episode update.
#[derive(Debug)]
pub enum InvalidEpisodeError {
    NotExist { anime: String, episode: Episode },
}

/// Relies on std::time::SystemTime for the seconds since the Unix
/// epoch. Nothing is promised of the value: it is the clock.
#[verifier::external_body]
fn get_time() -> u64 {
    std::time::SystemTime::now().duration_since(std::time::SystemTime::UNIX_EPOCH).map(
        |d| d.as_secs(),
    ).unwrap_or(0)
}

impl View for Anime {
    type V = AnimeModel;

    closed spec fn view(&self) -> AnimeModel {
        AnimeModel {
            path: self.path@,
            last_watched: self.last_watched,
            last_updated: self.last_updated,
            current_episode: self.current_episode@,
            episodes: map_model(self.episodes@),
        }
    }
}

impl Anime {
    /// The episode map is sorted by the episode order.
    pub open spec fn wf(&self) -> bool {
        map_sorted(self@.episodes)
    }

    /// A fresh entry for a newly discovered show directory: nothing
    /// watched yet, progress at the first episode of the first
    /// season, no files recorded.
    pub fn from_path(path: &str, time: u64) -> (r: Anime)
        ensures
            r@.path == path@,
            r@.last_watched == 0,
            r@.last_updated == time,
            r@.current_episode == (EpisodeModel::Numbered { season: 1, episode: 1 }),
            r@.episodes == Seq::<(EpisodeModel, Seq<Seq<char>>)>::empty(),
            r.wf(),
    {
        let r = Anime {
            path: path.to_owned(),
            last_watched: 0,
            last_updated: time,
            current_episode: Episode::from((1, 1)),
            episodes: Vec::new(),
        };
        proof {
            assert(map_model(r.episodes@) =~= Seq::<(EpisodeModel, Seq<Seq<char>>)>::empty());
        }
        r
    }

    /// Records the files of one scan: every video file that
    /// classifies successfully is merged into the episode map, in
    /// order; everything else is skipped. Progress fields are
    /// untouched.
    pub fn update_episodes(&mut self, files: &Vec<String>)
        requires
            old(self).wf(),
        ensures
            final(self)@.episodes == sync_files(old(self)@.episodes, paths_model(files@)),
            final(self)@.path == old(self)@.path,
            final(self)@.last_watched == old(self)@.last_watched,
            final(self)@.last_updated == old(self)@.last_updated,
            final(self)@.current_episode == old(self)@.current_episode,
            final(self).wf(),
    {
        let ghost m_start = self@.episodes;
        let ghost fm = paths_model(files@);
        let n = files.len();
        let mut k: usize = 0;
        proof {
            assert(fm.take(0) =~= Seq::<Seq<char>>::empty());
        }
        while k < n
            invariant
                k <= n,
                n == files@.len(),
                fm == paths_model(files@),
                self.wf(),
                map_model(self.episodes@) == sync_files(m_start, fm.take(k as int)),
                self@.path == old(self)@.path,
                self@.last_watched == old(self)@.last_watched,
                self@.last_updated == old(self)@.last_updated,
                self@.current_episode == old(self)@.current_episode,
            decreases n - k,
        {
            proof {
                assert(fm.take(k + 1).drop_last() =~= fm.take(k as int));
                assert(fm.take(k + 1).last() == fm[k as int]);
                assert(fm[k as int] == files@[k as int]@);
            }
            let f = &files[k];
            if video_ext_check(f.as_str()) {
                match Episode::from_str(f.as_str()) {
                    Ok(ep) => {
                        merge_into(&mut self.episodes, ep, f.clone());
                    },
                    Err(_) => {},
                }
            }
            k = k + 1;
        }
        proof {
            assert(fm.take(n as int) =~= fm);
        }
    }

    /// The episode the viewer is on.
    pub fn current_episode(&self) -> (r: Episode)
        ensures
            r@ == self@.current_episode,
    {
        self.current_episode.clone()
    }

    /// The sorted episode map: one bucket of file paths per episode.
    pub fn episodes(&self) -> (r: &EpisodeMap)
        ensures
            map_model(r@) == self@.episodes,
    {
        &self.episodes
    }

    /// The show's directory path.
    pub fn path(&self) -> (r: &String)
        ensures
            r@ == self@.path,
    {
        &self.path
    }

    /// When an episode of this show was last marked watched; 0 means
    /// never.
    pub fn last_watched(&self) -> (r: u64)
        ensures
            r == self@.last_watched,
    {
        self.last_watched
    }

    /// When this show's directory was last scanned.
    pub fn last_updated(&self) -> (r: u64)
        ensures
            r == self@.last_updated,
    {
        self.last_updated
    }

    /// Whether the given episode is a key of the episode map.
    fn has_key(&self, ep: &Episode) -> (r: bool)
        ensures
            r == map_has_key(self@.episodes, ep@),
    {
        let n = self.episodes.len();
        let mut i: usize = 0;
        while i < n
            invariant
                i <= n,
                n == self.episodes@.len(),
                forall|j: int| 0 <= j < i ==> map_model(self.episodes@)[j].0 != ep@,
            decreases n - i,
        {
            proof {
                assert(map_model(self.episodes@)[i as int].0 == self.episodes@[i as int].0@);
            }
            if self.episodes[i].0 == *ep {
                return true;
            }
            i = i + 1;
        }
        false
    }

    /// Whether `Numbered { season, episode }` is a key of the map.
    fn has_numbered(&self, season: usize, episode: usize) -> (r: bool)
        ensures
            r == map_has_key(
                self@.episodes,
                EpisodeModel::Numbered { season: season as int, episode: episode as int },
            ),
    {
        let probe = Episode::Numbered { season, episode };
        self.has_key(&probe)
    }

    /// The successor of a numbered episode, probing in this order:
    /// the next episode of the same season, then the next season's
    /// zero-indexed premiere, then its one-indexed premiere. The
    /// first probe that is a key of the map wins; if none is, there
    /// is no successor.
    pub fn next_episode_raw(&self, current: (usize, usize)) -> (r: Option<Episode>)
        requires
            current.0 < usize::MAX,
            current.1 < usize::MAX,
        ensures
            ({
                let m = self@.episodes;
                let s = current.0 as int;
                let e = current.1 as int;
                if map_has_key(m, EpisodeModel::Numbered { season: s, episode: e + 1 }) {
                    r matches Some(ep) && ep@ == (EpisodeModel::Numbered {
                        season: s,
                        episode: e + 1,
                    })
                } else if map_has_key(m, EpisodeModel::Numbered { season: s + 1, episode: 0 }) {
                    r matches Some(ep) && ep@ == (EpisodeModel::Numbered {
                        season: s + 1,
                        episode: 0,
                    })
                } else if map_has_key(m, EpisodeModel::Numbered { season: s + 1, episode: 1 }) {
                    r matches Some(ep) && ep@ == (EpisodeModel::Numbered {
                        season: s + 1,
                        episode: 1,
                    })
                } else {
                    r is None
                }
            }),
    {
        let (season, episode) = current;
        if self.has_numbered(season, episode + 1) {
            Some(Episode::Numbered { season, episode: episode + 1 })
        } else if self.has_numbered(season + 1, 0) {
            Some(Episode::Numbered { season: season + 1, episode: 0 })
        } else if self.has_numbered(season + 1, 1) {
            Some(Episode::Numbered { season: season + 1, episode: 1 })
        } else {
            None
        }
    }

    /// The successor of the episode the viewer is on. A special has
    /// no successor; a numbered episode's successor is what
    /// [`Anime::next_episode_raw`] finds.
    pub fn next_episode(&self) -> (r: Option<Episode>)
        requires
            self@.current_episode matches EpisodeModel::Numbered { season, episode }
                ==> season < usize::MAX && episode < usize::MAX,
        ensures
            self@.current_episode is Special ==> r is None,
            ({
                let m = self@.episodes;
                self@.current_episode matches EpisodeModel::Numbered { season: s, episode: e }
                    ==> if map_has_key(m, EpisodeModel::Numbered { season: s, episode: e + 1 }) {
                    r matches Some(ep) && ep@ == (EpisodeModel::Numbered {
                        season: s,
                        episode: e + 1,
                    })
                } else if map_has_key(m, EpisodeModel::Numbered { season: s + 1, episode: 0 }) {
                    r matches Some(ep) && ep@ == (EpisodeModel::Numbered {
                        season: s + 1,
                        episode: 0,
                    })
                } else if map_has_key(m, EpisodeModel::Numbered { season: s + 1, episode: 1 }) {
                    r matches Some(ep) && ep@ == (EpisodeModel::Numbered {
                        season: s + 1,
                        episode: 1,
                    })
                } else {
                    r is None
                }
            }),
    {
        match &self.current_episode {
            Episode::Numbered { season, episode } => self.next_episode_raw((*season, *episode)),
            Episode::Special { .. } => None,
        }
    }

    /// Rebuilds a show from its recorded parts, as a persisted
    /// snapshot holds them. The episode entries are folded in through
    /// the merge, so the result is sorted and duplicate-free whatever
    /// order the parts arrive in.
    pub fn from_parts(
        path: String,
        last_watched: u64,
        last_updated: u64,
        current_episode: Episode,
        episodes: &EpisodeMap,
    ) -> (r: Anime)
        ensures
            r@.path == path@,
            r@.last_watched == last_watched,
            r@.last_updated == last_updated,
            r@.current_episode == current_episode@,
            r@.episodes == rebuild(
                Seq::<(EpisodeModel, Seq<Seq<char>>)>::empty(),
                map_model(episodes@),
            ),
            r.wf(),
    {
        let ghost entries = map_model(episodes@);
        let ghost base = Seq::<(EpisodeModel, Seq<Seq<char>>)>::empty();
        let mut map: EpisodeMap = Vec::new();
        proof {
            assert(map_model(map@) =~= base);
            assert(entries.take(0) =~= Seq::<(EpisodeModel, Seq<Seq<char>>)>::empty());
        }
        let n = episodes.len();
        let mut k: usize = 0;
        while k < n
            invariant
                k <= n,
                n == episodes@.len(),
                entries == map_model(episodes@),
                map_sorted(map_model(map@)),
                map_model(map@) == rebuild(base, entries.take(k as int)),
            decreases n - k,
        {
            proof {
                assert(entries.take(k + 1).drop_last() =~= entries.take(k as int));
                assert(entries.take(k + 1).last() == entries[k as int]);
                assert(entries[k as int] == (
                    episodes@[k as int].0@,
                    paths_model(episodes@[k as int].1@),
                ));
            }
            let ghost ep_v = entries[k as int].0;
            let ghost bucket = entries[k as int].1;
            let ghost mid = rebuild(base, entries.take(k as int));
            let bn = episodes[k].1.len();
            let mut p: usize = 0;
            proof {
                assert(bucket.take(0) =~= Seq::<Seq<char>>::empty());
            }
            while p < bn
                invariant
                    p <= bn,
                    k < n,
                    n == episodes@.len(),
                    bn == episodes@[k as int].1@.len(),
                    ep_v == episodes@[k as int].0@,
                    bucket == paths_model(episodes@[k as int].1@),
                    map_sorted(map_model(map@)),
                    map_model(map@) == merge_bucket(mid, ep_v, bucket.take(p as int)),
                decreases bn - p,
            {
                proof {
                    assert(bucket.take(p + 1).drop_last() =~= bucket.take(p as int));
                    assert(bucket.take(p + 1).last() == bucket[p as int]);
                    assert(bucket[p as int] == episodes@[k as int].1@[p as int]@);
                }
                let ep = episodes[k].0.clone();
                let pth = episodes[k].1[p].clone();
                merge_into(&mut map, ep, pth);
                p = p + 1;
            }
            proof {
                assert(bucket.take(bn as int) =~= bucket);
            }
            k = k + 1;
        }
        proof {
            assert(entries.take(n as int) =~= entries);
        }
        Anime { path, last_watched, last_updated, current_episode, episodes: map }
    }

    /// Stamps the time of the scan that has just been applied.
    fn set_last_updated(&mut self, time: u64)
        ensures
            final(self)@ == (AnimeModel { last_updated: time, ..old(self)@ }),
    {
        self.last_updated = time;
    }

    /// Trusted-internal fast path: records the watched episode and
    /// stamps the clock without checking that the episode exists.
    /// Only the validated [`Anime::update_watched`] calls it.
    fn update_watched_unchecked(&mut self, watched: Episode)
        ensures
            final(self)@.current_episode == watched@,
            final(self)@.path == old(self)@.path,
            final(self)@.last_updated == old(self)@.last_updated,
            final(self)@.episodes == old(self)@.episodes,
    {
        let timestamp = get_time();
        self.last_watched = timestamp;
        self.current_episode = watched;
    }

    /// Marks `watched` as the episode the viewer is on and stamps
    /// the clock. Succeeds exactly when the episode is a key of the
    /// episode map; a rejected update mutates nothing and names the
    /// show and the episode in its error.
    pub fn update_watched(&mut self, watched: Episode) -> (r: Result<(), InvalidEpisodeError>)
        ensures
            r is Ok <==> map_has_key(old(self)@.episodes, watched@),
            r is Ok ==> final(self)@.current_episode == watched@,
            r is Ok ==> final(self)@.episodes == old(self)@.episodes,
            r is Ok ==> final(self)@.path == old(self)@.path,
            r is Ok ==> final(self)@.last_updated == old(self)@.last_updated,
            r is Err ==> *final(self) == *old(self),
            r matches Err(InvalidEpisodeError::NotExist { anime, episode }) ==> anime@
                == old(self)@.path && episode@ == watched@,
    {
        if self.has_key(&watched) {
            self.update_watched_unchecked(watched);
            Ok(())
        } else {
            Err(
                InvalidEpisodeError::NotExist {
                    anime: self.path.clone(),
                    episode: watched,
                },
            )
        }
    }
}


// ---------------------------------------------------------------------
// The catalog
// ---------------------------------------------------------------------

/// The mathematical value of a [`Database`]: show name to show, in
/// name order.
pub type CatalogModel = Seq<(Seq<char>, AnimeModel)>;

/// The catalog: every tracked show, keyed by the show's directory
/// name.
#[derive(Debug)]
pub struct Database {
    anime_map: Vec<(String, Anime)>,
}

pub open spec fn names_sorted(m: CatalogModel) -> bool {
    forall|i: int, j: int| 0 <= i < j < m.len() ==> seq_char_lt(m[i].0, m[j].0)
}

/// Index of `name` in the catalog, or `-1` when it is not tracked.
pub open spec fn key_index(m: CatalogModel, name: Seq<char>) -> int
    decreases m.len(),
{
    if m.len() == 0 {
        -1
    } else if m[0].0 == name {
        0
    } else if key_index(m.skip(1), name) < 0 {
        -1
    } else {
        key_index(m.skip(1), name) + 1
    }
}

pub open spec fn catalog_has(m: CatalogModel, name: Seq<char>, a: AnimeModel) -> bool {
    exists|i: int| 0 <= i < m.len() && m[i] == (name, a)
}

proof fn lemma_key_index_of(m: CatalogModel, name: Seq<char>)
    ensures
        -1 <= key_index(m, name) < m.len(),
        key_index(m, name) >= 0 ==> m[key_index(m, name)].0 == name,
        key_index(m, name) < 0 ==> forall|i: int| 0 <= i < m.len() ==> m[i].0 != name,
    decreases m.len(),
{
    if m.len() > 0 && m[0].0 != name {
        lemma_key_index_of(m.skip(1), name);
        let kt = key_index(m.skip(1), name);
        if kt >= 0 {
            assert(m.skip(1)[kt] == m[kt + 1]);
        } else {
            assert forall|i: int| 0 <= i < m.len() implies m[i].0 != name by {
                if i > 0 {
                    assert(m.skip(1)[i - 1] == m[i]);
                }
            }
        }
    }
}

/// In a name-sorted catalog, a scan that stops at the first name not
/// below `name` lands exactly on `key_index`.
proof fn lemma_key_index_at(m: CatalogModel, name: Seq<char>, i: int)
    requires
        names_sorted(m),
        0 <= i <= m.len(),
        forall|j: int| 0 <= j < i ==> seq_char_lt(m[j].0, name),
        i < m.len() ==> !seq_char_lt(m[i].0, name),
    ensures
        i < m.len() && m[i].0 == name ==> key_index(m, name) == i,
        !(i < m.len() && m[i].0 == name) ==> key_index(m, name) == -1,
{
    lemma_key_index_of(m, name);
    let k = key_index(m, name);
    if i < m.len() && m[i].0 == name {
        if k < i {
            assert(seq_char_lt(m[k].0, name));
            lemma_seq_char_cmp_equal(name, name);
        } else if k > i {
            assert(seq_char_lt(m[i].0, m[k].0));
            lemma_seq_char_cmp_equal(name, name);
        }
    } else {
        if k >= 0 {
            if k < i {
                assert(seq_char_lt(m[k].0, name));
                lemma_seq_char_cmp_equal(name, name);
            } else if k == i {
                assert(m[i].0 == name);
            } else {
                assert(i < m.len());
                assert(seq_char_lt(m[i].0, m[k].0));
                assert(m[i].0 != name);
                lemma_seq_char_cmp_equal(m[i].0, name);
                lemma_seq_char_cmp_flip(m[i].0, name);
                assert(seq_char_lt(name, m[i].0));
                lemma_seq_char_lt_trans(name, m[i].0, m[k].0);
                lemma_seq_char_cmp_equal(name, name);
            }
        }
    }
}

pub open spec fn db_model(s: Seq<(String, Anime)>) -> CatalogModel {
    s.map_values(|e: (String, Anime)| (e.0@, e.1@))
}

impl View for Database {
    type V = CatalogModel;

    closed spec fn view(&self) -> CatalogModel {
        db_model(self.anime_map@)
    }
}

impl Database {
    /// Names strictly increase, and every show's episode map is
    /// sorted.
    pub open spec fn wf(&self) -> bool {
        &&& names_sorted(self@)
        &&& forall|i: int| 0 <= i < self@.len() ==> map_sorted(#[trigger] self@[i].1.episodes)
    }

    /// An empty catalog.
    pub fn new() -> (r: Database)
        ensures
            r@.len() == 0,
            r.wf(),
    {
        Database { anime_map: Vec::new() }
    }

    /// Index where `name` belongs in the name-sorted catalog: the
    /// first position whose name is not below it.
    fn find_pos(&self, name: &str) -> (i: usize)
        ensures
            i <= self@.len(),
            forall|j: int| 0 <= j < i ==> seq_char_lt(self@[j].0, name@),
            i < self@.len() ==> !seq_char_lt(self@[i as int].0, name@),
    {
        let n = self.anime_map.len();
        let mut i: usize = 0;
        while i < n
            invariant
                i <= n,
                n == self@.len(),
                forall|j: int| 0 <= j < i ==> seq_char_lt(self@[j].0, name@),
            decreases n - i,
        {
            proof {
                assert(self@[i as int].0 == self.anime_map@[i as int].0@);
            }
            let c = str_char_cmp(self.anime_map[i].0.as_str(), name);
            if !matches!(c, core::cmp::Ordering::Less) {
                return i;
            }
            i = i + 1;
        }
        i
    }

    /// Whether the show must be walked again: it is not tracked yet,
    /// or its directory changed after the last recorded scan.
    pub fn needs_update(&self, name: &str, dir_mtime: u64) -> (r: bool)
        requires
            self.wf(),
        ensures
            r == (key_index(self@, name@) < 0 || self@[key_index(self@, name@)].1.last_updated
                < dir_mtime),
    {
        let i = self.find_pos(name);
        proof {
            lemma_key_index_at(self@, name@, i as int);
        }
        if i < self.anime_map.len() {
            proof {
                assert(self@[i as int].0 == self.anime_map@[i as int].0@);
            }
            let c = str_char_cmp(self.anime_map[i].0.as_str(), name);
            if matches!(c, core::cmp::Ordering::Equal) {
                proof {
                    lemma_seq_char_cmp_equal(self.anime_map@[i as int].0@, name@);
                    assert(self@[i as int].1.last_updated
                        == self.anime_map@[i as int].1@.last_updated);
                }
                return self.anime_map[i].1.last_updated() < dir_mtime;
            }
            proof {
                lemma_seq_char_cmp_equal(self.anime_map@[i as int].0@, name@);
            }
            true
        } else {
            true
        }
    }

    /// The tracked show of that name, for reading or for updating
    /// watch progress; nothing when the name is not tracked.
    pub fn get_anime(&mut self, anime: &str) -> (r: Option<&mut Anime>)
        requires
            old(self).wf(),
        ensures
            ({
                let k = key_index(old(self)@, anime@);
                match r {
                    None => k < 0 && *final(self) == *old(self),
                    Some(a) => {
                        &&& k >= 0
                        &&& (*a)@ == old(self)@[k].1
                        &&& final(self)@.len() == old(self)@.len()
                        &&& final(self)@[k] == (old(self)@[k].0, (*final(a))@)
                        &&& forall|j: int|
                            0 <= j < old(self)@.len() && j != k ==> final(self)@[j] == old(
                                self,
                            )@[j]
                    },
                }
            }),
    {
        let i = self.find_pos(anime);
        proof {
            lemma_key_index_at(self@, anime@, i as int);
        }
        if i < self.anime_map.len() {
            proof {
                assert(self@[i as int].0 == self.anime_map@[i as int].0@);
            }
            let c = str_char_cmp(self.anime_map[i].0.as_str(), anime);
            proof {
                lemma_seq_char_cmp_equal(self.anime_map@[i as int].0@, anime@);
            }
            if matches!(c, core::cmp::Ordering::Equal) {
                return Some(&mut self.anime_map[i].1);
            }
            None
        } else {
            None
        }
    }
}


impl Database {
    /// Inserts a show under its name, replacing the tracked entry
    /// when the name already exists, else adding it in name order.
    pub fn insert_anime(&mut self, name: &str, anime: Anime)
        requires
            old(self).wf(),
            anime.wf(),
        ensures
            final(self).wf(),
            ({
                let k = key_index(old(self)@, name@);
                if k >= 0 {
                    final(self)@ == old(self)@.update(k, (old(self)@[k].0, anime@))
                } else {
                    &&& final(self)@.len() == old(self)@.len() + 1
                    &&& catalog_has(final(self)@, name@, anime@)
                    &&& forall|j: int|
                        0 <= j < old(self)@.len() ==> catalog_has(
                            final(self)@,
                            #[trigger] old(self)@[j].0,
                            old(self)@[j].1,
                        )
                }
            }),
    {
        let ghost m0 = self@;
        let ghost a_v = anime@;
        let i = self.find_pos(name);
        proof {
            lemma_key_index_at(m0, name@, i as int);
        }
        let mut found = false;
        if i < self.anime_map.len() {
            proof {
                assert(m0[i as int].0 == self.anime_map@[i as int].0@);
            }
            let c = str_char_cmp(self.anime_map[i].0.as_str(), name);
            proof {
                lemma_seq_char_cmp_equal(self.anime_map@[i as int].0@, name@);
            }
            found = matches!(c, core::cmp::Ordering::Equal);
        }
        if found {
            let ghost orig = self.anime_map@;
            let mut entry = self.anime_map.remove(i);
            entry.1 = anime;
            self.anime_map.insert(i, entry);
            proof {
                assert(self.anime_map@ =~= orig.update(i as int, self.anime_map@[i as int]));
                assert(self.anime_map@[i as int].0 == orig[i as int].0);
                assert(self.anime_map@[i as int].1@ == a_v);
                assert(self@ =~~= m0.update(i as int, (m0[i as int].0, a_v)));
                assert forall|a: int, b: int| 0 <= a < b < self@.len() implies seq_char_lt(
                    self@[a].0,
                    self@[b].0,
                ) by {
                    assert(self@[a].0 == m0[a].0);
                    assert(self@[b].0 == m0[b].0);
                }
                assert forall|j: int| 0 <= j < self@.len() implies map_sorted(
                    #[trigger] self@[j].1.episodes,
                ) by {
                    if j != i {
                        assert(self@[j] == m0[j]);
                    }
                }
            }
        } else {
            self.anime_map.insert(i, (name.to_owned(), anime));
            proof {
                assert(self.anime_map@[i as int].0@ == name@);
                assert(self.anime_map@[i as int].1@ == a_v);
                assert(self@.len() == m0.len() + 1);
                assert(self@[i as int] == (name@, a_v));
                assert(catalog_has(self@, name@, a_v));
                assert forall|j: int| 0 <= j < m0.len() implies catalog_has(
                    self@,
                    #[trigger] m0[j].0,
                    m0[j].1,
                ) by {
                    if j < i {
                        assert(self@[j] == m0[j]);
                    } else {
                        assert(self@[j + 1] == m0[j]);
                    }
                }
                assert(i < m0.len() ==> m0[i as int].0 != name@);
                assert forall|a: int, b: int| 0 <= a < b < self@.len() implies seq_char_lt(
                    self@[a].0,
                    self@[b].0,
                ) by {
                    if a < i && b < i {
                        assert(self@[a].0 == m0[a].0);
                        assert(self@[b].0 == m0[b].0);
                    } else if a < i && b == i {
                        assert(self@[a].0 == m0[a].0);
                        assert(seq_char_lt(m0[a].0, name@));
                    } else if a < i && b > i {
                        assert(self@[a].0 == m0[a].0);
                        assert(self@[b].0 == m0[b - 1].0);
                        assert(seq_char_lt(m0[a].0, m0[b - 1].0));
                    } else if a == i {
                        assert(self@[b].0 == m0[b - 1].0);
                        assert(!seq_char_lt(m0[i as int].0, name@));
                        lemma_seq_char_cmp_equal(name@, m0[i as int].0);
                        lemma_seq_char_cmp_flip(name@, m0[i as int].0);
                        lemma_seq_char_cmp_flip(m0[i as int].0, name@);
                        assert(seq_char_lt(name@, m0[i as int].0));
                        if b - 1 > i {
                            assert(seq_char_lt(m0[i as int].0, m0[b - 1].0));
                            lemma_seq_char_lt_trans(name@, m0[i as int].0, m0[b - 1].0);
                        }
                    } else {
                        assert(self@[a].0 == m0[a - 1].0);
                        assert(self@[b].0 == m0[b - 1].0);
                        assert(seq_char_lt(m0[a - 1].0, m0[b - 1].0));
                    }
                }
                assert forall|j: int| 0 <= j < self@.len() implies map_sorted(
                    #[trigger] self@[j].1.episodes,
                ) by {
                    if j < i {
                        assert(self@[j] == m0[j]);
                    } else if j > i {
                        assert(self@[j] == m0[j - 1]);
                    }
                }
            }
        }
    }

    /// Applies one scan of a show's directory: a show seen for the
    /// first time is created fresh, then the scanned files are
    /// merged into its episode map and the scan time is recorded.
    /// Watch progress is never touched.
    pub fn sync_show(&mut self, name: &str, dir_path: &str, files: &Vec<String>, time: u64)
        requires
            old(self).wf(),
        ensures
            final(self).wf(),
            ({
                let k = key_index(old(self)@, name@);
                if k >= 0 {
                    final(self)@ == old(self)@.update(
                        k,
                        (
                            old(self)@[k].0,
                            (AnimeModel {
                                episodes: sync_files(
                                    old(self)@[k].1.episodes,
                                    paths_model(files@),
                                ),
                                last_updated: time,
                                ..old(self)@[k].1
                            }),
                        ),
                    )
                } else {
                    &&& final(self)@.len() == old(self)@.len() + 1
                    &&& catalog_has(
                        final(self)@,
                        name@,
                        (AnimeModel {
                            path: dir_path@,
                            last_watched: 0,
                            last_updated: time,
                            current_episode: EpisodeModel::Numbered { season: 1, episode: 1 },
                            episodes: sync_files(
                                Seq::<(EpisodeModel, Seq<Seq<char>>)>::empty(),
                                paths_model(files@),
                            ),
                        }),
                    )
                    &&& forall|j: int|
                        0 <= j < old(self)@.len() ==> catalog_has(
                            final(self)@,
                            #[trigger] old(self)@[j].0,
                            old(self)@[j].1,
                        )
                }
            }),
    {
        let ghost m0 = self@;
        let i = self.find_pos(name);
        proof {
            lemma_key_index_at(m0, name@, i as int);
        }
        let mut found = false;
        if i < self.anime_map.len() {
            proof {
                assert(m0[i as int].0 == self.anime_map@[i as int].0@);
            }
            let c = str_char_cmp(self.anime_map[i].0.as_str(), name);
            proof {
                lemma_seq_char_cmp_equal(self.anime_map@[i as int].0@, name@);
            }
            found = matches!(c, core::cmp::Ordering::Equal);
        }
        if found {
            let ghost orig = self.anime_map@;
            let mut entry = self.anime_map.remove(i);
            entry.1.update_episodes(files);
            entry.1.set_last_updated(time);
            self.anime_map.insert(i, entry);
            proof {
                assert(self.anime_map@ =~= orig.update(i as int, self.anime_map@[i as int]));
                assert(self.anime_map@[i as int].0 == orig[i as int].0);
                assert(self@ =~~= m0.update(
                    i as int,
                    (
                        m0[i as int].0,
                        (AnimeModel {
                            episodes: sync_files(m0[i as int].1.episodes, paths_model(files@)),
                            last_updated: time,
                            ..m0[i as int].1
                        }),
                    ),
                ));
                assert forall|a: int, b: int| 0 <= a < b < self@.len() implies seq_char_lt(
                    self@[a].0,
                    self@[b].0,
                ) by {
                    assert(self@[a].0 == m0[a].0);
                    assert(self@[b].0 == m0[b].0);
                }
                assert forall|j: int| 0 <= j < self@.len() implies map_sorted(
                    #[trigger] self@[j].1.episodes,
                ) by {
                    if j != i {
                        assert(self@[j] == m0[j]);
                    }
                }
            }
        } else {
            let mut fresh = Anime::from_path(dir_path, time);
            fresh.update_episodes(files);
            let ghost fresh_v = fresh@;
            self.anime_map.insert(i, (name.to_owned(), fresh));
            proof {
                assert(self.anime_map@[i as int].0@ == name@);
                assert(self.anime_map@[i as int].1@ == fresh_v);
                assert(self@[i as int] == (name@, fresh_v));
                assert(fresh_v == (AnimeModel {
                    path: dir_path@,
                    last_watched: 0,
                    last_updated: time,
                    current_episode: EpisodeModel::Numbered { season: 1, episode: 1 },
                    episodes: sync_files(
                        Seq::<(EpisodeModel, Seq<Seq<char>>)>::empty(),
                        paths_model(files@),
                    ),
                }));
                assert(catalog_has(self@, name@, fresh_v));
                assert forall|j: int| 0 <= j < m0.len() implies catalog_has(
                    self@,
                    #[trigger] m0[j].0,
                    m0[j].1,
                ) by {
                    if j < i {
                        assert(self@[j] == m0[j]);
                    } else {
                        assert(self@[j + 1] == m0[j]);
                    }
                }
                assert(i < m0.len() ==> m0[i as int].0 != name@);
                assert forall|a: int, b: int| 0 <= a < b < self@.len() implies seq_char_lt(
                    self@[a].0,
                    self@[b].0,
                ) by {
                    if a < i && b < i {
                        assert(self@[a].0 == m0[a].0);
                        assert(self@[b].0 == m0[b].0);
                    } else if a < i && b == i {
                        assert(self@[a].0 == m0[a].0);
                        assert(seq_char_lt(m0[a].0, name@));
                    } else if a < i && b > i {
                        assert(self@[a].0 == m0[a].0);
                        assert(self@[b].0 == m0[b - 1].0);
                        assert(seq_char_lt(m0[a].0, m0[b - 1].0));
                    } else if a == i {
                        assert(self@[b].0 == m0[b - 1].0);
                        assert(!seq_char_lt(m0[i as int].0, name@));
                        lemma_seq_char_cmp_equal(name@, m0[i as int].0);
                        lemma_seq_char_cmp_flip(name@, m0[i as int].0);
                        lemma_seq_char_cmp_flip(m0[i as int].0, name@);
                        assert(seq_char_lt(name@, m0[i as int].0));
                        if b - 1 > i {
                            assert(seq_char_lt(m0[i as int].0, m0[b - 1].0));
                            lemma_seq_char_lt_trans(name@, m0[i as int].0, m0[b - 1].0);
                        }
                    } else {
                        assert(self@[a].0 == m0[a - 1].0);
                        assert(self@[b].0 == m0[b - 1].0);
                        assert(seq_char_lt(m0[a - 1].0, m0[b - 1].0));
                    }
                }
                assert forall|j: int| 0 <= j < self@.len() implies map_sorted(
                    #[trigger] self@[j].1.episodes,
                ) by {
                    if j < i {
                        assert(self@[j] == m0[j]);
                    } else if j > i {
                        assert(self@[j] == m0[j - 1]);
                    }
                }
            }
        }
    }
}


/// Some entry of the catalog carries this name.
pub open spec fn catalog_has_name(m: CatalogModel, name: Seq<char>) -> bool {
    exists|i: int| 0 <= i < m.len() && m[i].0 == name
}

/// Some listed name equals `name`.
pub open spec fn names_has(rs: Seq<String>, name: Seq<char>) -> bool {
    exists|j: int| 0 <= j < rs.len() && rs[j]@ == name
}

/// The listing order on (name, last-watched) pairs: most recently
/// watched first, ties broken by name.
pub open spec fn watch_order(a: (Seq<char>, u64), b: (Seq<char>, u64)) -> bool {
    a.1 > b.1 || (a.1 == b.1 && seq_char_lt(a.0, b.0))
}

/// Where show `a` is listed before show `b`: watched more recently,
/// or watched equally recently and named first.
pub open spec fn listed_before(m: CatalogModel, a: Seq<char>, b: Seq<char>) -> bool {
    watch_order(
        (a, m[key_index(m, a)].1.last_watched),
        (b, m[key_index(m, b)].1.last_watched),
    )
}

proof fn lemma_watch_order_total(a: (Seq<char>, u64), b: (Seq<char>, u64))
    requires
        a.0 != b.0,
    ensures
        watch_order(a, b) || watch_order(b, a),
{
    if a.1 == b.1 {
        lemma_seq_char_cmp_equal(a.0, b.0);
        lemma_seq_char_cmp_flip(a.0, b.0);
        lemma_seq_char_cmp_flip(b.0, a.0);
    }
}

proof fn lemma_watch_order_trans(a: (Seq<char>, u64), b: (Seq<char>, u64), c: (Seq<char>, u64))
    requires
        watch_order(a, b),
        watch_order(b, c),
    ensures
        watch_order(a, c),
{
    if a.1 == b.1 && b.1 == c.1 {
        lemma_seq_char_lt_trans(a.0, b.0, c.0);
    }
}

/// In a name-sorted catalog, looking an entry's own name up finds
/// that entry.
proof fn lemma_key_index_self(m: CatalogModel, y: int)
    requires
        names_sorted(m),
        0 <= y < m.len(),
    ensures
        key_index(m, m[y].0) == y,
{
    lemma_key_index_of(m, m[y].0);
    let k = key_index(m, m[y].0);
    if k < y {
        assert(seq_char_lt(m[k].0, m[y].0));
        lemma_seq_char_cmp_equal(m[k].0, m[y].0);
    } else if k > y {
        assert(seq_char_lt(m[y].0, m[k].0));
        lemma_seq_char_cmp_equal(m[y].0, m[k].0);
    }
}

/// The (name, last-watched) pairs of the scratch vector.
pub open spec fn pairs_model(s: Seq<(String, u64)>) -> Seq<(Seq<char>, u64)> {
    s.map_values(|p: (String, u64)| (p.0@, p.1))
}

/// Every pair stems from one of the first `t` catalog entries.
pub open spec fn sources_ok(p: Seq<(Seq<char>, u64)>, m: CatalogModel, t: int) -> bool {
    forall|x: int|
        0 <= x < p.len() ==> exists|y: int|
            0 <= y < t && #[trigger] p[x] == (m[y].0, m[y].1.last_watched)
}

/// Each of the first `t` catalog entries appears among the pairs.
pub open spec fn covers(p: Seq<(Seq<char>, u64)>, m: CatalogModel, t: int) -> bool {
    forall|y: int|
        0 <= y < t ==> exists|x: int|
            0 <= x < p.len() && p[x] == (#[trigger] m[y].0, m[y].1.last_watched)
}

pub open spec fn distinct_names(p: Seq<(Seq<char>, u64)>) -> bool {
    forall|x1: int, x2: int| 0 <= x1 < x2 < p.len() ==> #[trigger] p[x1].0 != #[trigger] p[x2].0
}

pub open spec fn listing_sorted(p: Seq<(Seq<char>, u64)>) -> bool {
    forall|x1: int, x2: int|
        0 <= x1 < x2 < p.len() ==> watch_order(#[trigger] p[x1], #[trigger] p[x2])
}

pub open spec fn catalog_distinct(m: CatalogModel) -> bool {
    forall|x: int, y: int| 0 <= x < y < m.len() ==> #[trigger] m[x].0 != #[trigger] m[y].0
}

proof fn lemma_catalog_distinct(m: CatalogModel)
    requires
        names_sorted(m),
    ensures
        catalog_distinct(m),
{
    assert forall|x: int, y: int| 0 <= x < y < m.len() implies #[trigger] m[x].0
        != #[trigger] m[y].0 by {
        assert(seq_char_lt(m[x].0, m[y].0));
        lemma_seq_char_cmp_equal(m[x].0, m[y].0);
    }
}

proof fn lemma_insert_sources(
    m: CatalogModel,
    p0: Seq<(Seq<char>, u64)>,
    p1: Seq<(Seq<char>, u64)>,
    t: int,
    q: int,
    item: (Seq<char>, u64),
)
    requires
        0 <= t < m.len(),
        item == (m[t].0, m[t].1.last_watched),
        0 <= q <= p0.len(),
        p1 == p0.insert(q, item),
        sources_ok(p0, m, t),
    ensures
        sources_ok(p1, m, t + 1),
{
    assert forall|x: int| 0 <= x < p1.len() implies exists|y: int|
        0 <= y < t + 1 && #[trigger] p1[x] == (m[y].0, m[y].1.last_watched) by {
        if x == q {
            assert(p1[x] == (m[t].0, m[t].1.last_watched));
        } else {
            let ox: int = if x < q {
                x
            } else {
                x - 1
            };
            assert(p1[x] == p0[ox]);
        }
    }
}

proof fn lemma_insert_covers(
    m: CatalogModel,
    p0: Seq<(Seq<char>, u64)>,
    p1: Seq<(Seq<char>, u64)>,
    t: int,
    q: int,
    item: (Seq<char>, u64),
)
    requires
        0 <= t < m.len(),
        item == (m[t].0, m[t].1.last_watched),
        0 <= q <= p0.len(),
        p1 == p0.insert(q, item),
        covers(p0, m, t),
    ensures
        covers(p1, m, t + 1),
{
    assert forall|y: int| 0 <= y < t + 1 implies exists|x: int|
        0 <= x < p1.len() && p1[x] == (#[trigger] m[y].0, m[y].1.last_watched) by {
        if y == t {
            assert(p1[q] == (m[y].0, m[y].1.last_watched));
        } else {
            let x0 = choose|x0: int|
                0 <= x0 < p0.len() && p0[x0] == (m[y].0, m[y].1.last_watched);
            let x1: int = if x0 < q {
                x0
            } else {
                x0 + 1
            };
            assert(p1[x1] == p0[x0]);
        }
    }
}

/// The new pair's name is fresh among the pairs already listed.
proof fn lemma_item_name_fresh(
    m: CatalogModel,
    p0: Seq<(Seq<char>, u64)>,
    t: int,
    item: (Seq<char>, u64),
)
    requires
        catalog_distinct(m),
        0 <= t < m.len(),
        item == (m[t].0, m[t].1.last_watched),
        sources_ok(p0, m, t),
    ensures
        forall|x: int| 0 <= x < p0.len() ==> #[trigger] p0[x].0 != item.0,
{
    assert forall|x: int| 0 <= x < p0.len() implies #[trigger] p0[x].0 != item.0 by {
        let y = choose|y: int| 0 <= y < t && p0[x] == (m[y].0, m[y].1.last_watched);
        assert(m[y].0 != m[t].0);
    }
}

proof fn lemma_insert_distinct(
    p0: Seq<(Seq<char>, u64)>,
    p1: Seq<(Seq<char>, u64)>,
    q: int,
    item: (Seq<char>, u64),
)
    requires
        0 <= q <= p0.len(),
        p1 == p0.insert(q, item),
        distinct_names(p0),
        forall|x: int| 0 <= x < p0.len() ==> #[trigger] p0[x].0 != item.0,
    ensures
        distinct_names(p1),
{
    assert forall|x1: int, x2: int| 0 <= x1 < x2 < p1.len() implies #[trigger] p1[x1].0
        != #[trigger] p1[x2].0 by {
        if x1 != q && x2 != q {
            let o1: int = if x1 < q {
                x1
            } else {
                x1 - 1
            };
            let o2: int = if x2 < q {
                x2
            } else {
                x2 - 1
            };
            assert(p1[x1] == p0[o1]);
            assert(p1[x2] == p0[o2]);
        } else if x1 == q {
            assert(p1[x2] == p0[x2 - 1]);
        } else {
            assert(p1[x1] == p0[x1]);
        }
    }
}

proof fn lemma_insert_sorted(
    p0: Seq<(Seq<char>, u64)>,
    p1: Seq<(Seq<char>, u64)>,
    q: int,
    item: (Seq<char>, u64),
)
    requires
        0 <= q <= p0.len(),
        p1 == p0.insert(q, item),
        listing_sorted(p0),
        forall|x: int| 0 <= x < p0.len() ==> #[trigger] p0[x].0 != item.0,
        forall|x: int| 0 <= x < q ==> watch_order(#[trigger] p0[x], item),
        q < p0.len() ==> !watch_order(p0[q], item),
    ensures
        listing_sorted(p1),
{
    if q < p0.len() {
        lemma_watch_order_total(item, p0[q]);
        assert(watch_order(item, p0[q]));
    }
    assert forall|x1: int, x2: int| 0 <= x1 < x2 < p1.len() implies watch_order(
        #[trigger] p1[x1],
        #[trigger] p1[x2],
    ) by {
        if x1 != q && x2 != q {
            let o1: int = if x1 < q {
                x1
            } else {
                x1 - 1
            };
            let o2: int = if x2 < q {
                x2
            } else {
                x2 - 1
            };
            assert(p1[x1] == p0[o1]);
            assert(p1[x2] == p0[o2]);
        } else if x1 == q {
            assert(p1[x2] == p0[x2 - 1]);
            if x2 - 1 > q {
                lemma_watch_order_trans(item, p0[q], p0[x2 - 1]);
            }
        } else {
            assert(p1[x1] == p0[x1]);
        }
    }
}

fn pair_before(a: &(String, u64), b: &(String, u64)) -> (r: bool)
    ensures
        r == watch_order((a.0@, a.1), (b.0@, b.1)),
{
    if a.1 > b.1 {
        true
    } else if a.1 == b.1 {
        let c = str_char_cmp(a.0.as_str(), b.0.as_str());
        matches!(c, core::cmp::Ordering::Less)
    } else {
        false
    }
}

/// Position where `item` belongs in the listing-ordered scratch
/// vector.
fn sorted_pos(out: &Vec<(String, u64)>, item: &(String, u64)) -> (q: usize)
    ensures
        q <= out@.len(),
        forall|x: int| 0 <= x < q ==> watch_order(#[trigger] pairs_model(out@)[x], (item.0@, item.1)),
        q < out@.len() ==> !watch_order(pairs_model(out@)[q as int], (item.0@, item.1)),
{
    let n = out.len();
    let mut q: usize = 0;
    while q < n
        invariant
            q <= n,
            n == out@.len(),
            forall|x: int|
                0 <= x < q ==> watch_order(#[trigger] pairs_model(out@)[x], (item.0@, item.1)),
        decreases n - q,
    {
        proof {
            assert(pairs_model(out@)[q as int] == (out@[q as int].0@, out@[q as int].1));
        }
        if !pair_before(&out[q], item) {
            return q;
        }
        q = q + 1;
    }
    q
}

impl Database {
    /// Lists every tracked show's name, the most recently watched
    /// first; shows watched equally recently come in name order.
    #[verifier::rlimit(100)]
    pub fn animes(&self) -> (r: Vec<String>)
        requires
            self.wf(),
        ensures
            r@.len() == self@.len(),
            forall|j: int| 0 <= j < r@.len() ==> catalog_has_name(self@, #[trigger] r@[j]@),
            forall|i: int| 0 <= i < self@.len() ==> names_has(r@, #[trigger] self@[i].0),
            forall|i: int, j: int| 0 <= i < j < r@.len() ==> listed_before(self@, r@[i]@, r@[j]@),
    {
        let ghost m = self@;
        proof {
            lemma_catalog_distinct(m);
        }
        let mut out: Vec<(String, u64)> = Vec::new();
        let n = self.anime_map.len();
        let mut t: usize = 0;
        proof {
            assert(pairs_model(out@) =~= Seq::<(Seq<char>, u64)>::empty());
        }
        while t < n
            invariant
                t <= n,
                n == m.len(),
                m == self@,
                self.wf(),
                catalog_distinct(m),
                out@.len() == t,
                sources_ok(pairs_model(out@), m, t as int),
                covers(pairs_model(out@), m, t as int),
                distinct_names(pairs_model(out@)),
                listing_sorted(pairs_model(out@)),
            decreases n - t,
        {
            proof {
                assert(m[t as int].0 == self.anime_map@[t as int].0@);
                assert(m[t as int].1 == self.anime_map@[t as int].1@);
            }
            let nm = self.anime_map[t].0.clone();
            let lw = self.anime_map[t].1.last_watched();
            let item = (nm, lw);
            let ghost item_v = (item.0@, item.1);
            let q = sorted_pos(&out, &item);
            let ghost p0 = pairs_model(out@);
            out.insert(q, item);
            proof {
                assert(pairs_model(out@) =~= p0.insert(q as int, item_v));
                lemma_insert_sources(m, p0, pairs_model(out@), t as int, q as int, item_v);
                lemma_insert_covers(m, p0, pairs_model(out@), t as int, q as int, item_v);
                lemma_item_name_fresh(m, p0, t as int, item_v);
                lemma_insert_distinct(p0, pairs_model(out@), q as int, item_v);
                lemma_insert_sorted(p0, pairs_model(out@), q as int, item_v);
            }
            t = t + 1;
        }
        let mut r: Vec<String> = Vec::new();
        let on = out.len();
        let mut w: usize = 0;
        while w < on
            invariant
                w <= on,
                on == out@.len(),
                r@.len() == w,
                forall|x: int| 0 <= x < w ==> #[trigger] r@[x]@ == pairs_model(out@)[x].0,
            decreases on - w,
        {
            proof {
                assert(pairs_model(out@)[w as int] == (out@[w as int].0@, out@[w as int].1));
            }
            r.push(out[w].0.clone());
            w = w + 1;
        }
        proof {
            let p = pairs_model(out@);
            assert forall|j: int| 0 <= j < r@.len() implies catalog_has_name(
                m,
                #[trigger] r@[j]@,
            ) by {
                let y = choose|y: int| 0 <= y < m.len() && p[j] == (m[y].0, m[y].1.last_watched);
                assert(m[y].0 == r@[j]@);
            }
            assert forall|i: int| 0 <= i < m.len() implies names_has(r@, #[trigger] m[i].0) by {
                let x = choose|x: int|
                    0 <= x < p.len() && p[x] == (m[i].0, m[i].1.last_watched);
                assert(r@[x]@ == m[i].0);
            }
            assert forall|i: int, j: int| 0 <= i < j < r@.len() implies listed_before(
                m,
                r@[i]@,
                r@[j]@,
            ) by {
                let yi = choose|yi: int|
                    0 <= yi < m.len() && p[i] == (m[yi].0, m[yi].1.last_watched);
                let yj = choose|yj: int|
                    0 <= yj < m.len() && p[j] == (m[yj].0, m[yj].1.last_watched);
                lemma_key_index_self(m, yi);
                lemma_key_index_self(m, yj);
                assert(watch_order(p[i], p[j]));
            }
        }
        r
    }
}

} // verus!
