//! The library's playlists, as the interface receives them, and how a track
//! moves within one. The index that stores tracks and playlists is a database
//! the application owns.

use vstd::prelude::*;
use crate::text::{chars_eq, chars_of};

verus! {

/// A named, ordered set of tracks. Membership travels with the playlist, so a
/// song can sit in several at once and leaving one is not a deletion.
pub struct Playlist {
    pub id: String,
    pub name: String,
    pub created_at: i64,
    /// Track ids in playing order.
    pub track_ids: Vec<String>,
}

/// The first position of `id` in `ids`, or -1.
pub open spec fn position_of(ids: Seq<Seq<char>>, id: Seq<char>) -> int
    decreases ids.len(),
{
    if ids.len() == 0 {
        -1
    } else if position_of(ids.drop_last(), id) >= 0 {
        position_of(ids.drop_last(), id)
    } else if ids.last() == id {
        ids.len() - 1
    } else {
        -1
    }
}

/// Which two places swap when the track `id` moves one step earlier
/// (`delta < 0`) or later in the playing order `ids`: its own and its
/// neighbour's in that direction. None when it is not in the playlist or is
/// already at the end it was asked to move towards.
pub open spec fn move_spec(ids: Seq<Seq<char>>, id: Seq<char>, delta: int) -> Option<(int, int)> {
    let here = position_of(ids, id);
    if here < 0 {
        None
    } else if delta < 0 {
        if here == 0 {
            None
        } else {
            Some((here, here - 1))
        }
    } else if here + 1 < ids.len() {
        Some((here, here + 1))
    } else {
        None
    }
}

/// The playing order after the tracks at `i` and `j` trade places.
pub open spec fn swapped(ids: Seq<Seq<char>>, i: int, j: int) -> Seq<Seq<char>> {
    ids.update(i, ids[j]).update(j, ids[i])
}

proof fn lemma_position_of(ids: Seq<Seq<char>>, id: Seq<char>)
    ensures
        -1 <= position_of(ids, id) < ids.len(),
        position_of(ids, id) >= 0 ==> ids[position_of(ids, id)] == id,
        position_of(ids, id) < 0 ==> forall|k: int| 0 <= k < ids.len() ==> ids[k] != id,
        position_of(ids, id) >= 0 ==> forall|k: int| 0 <= k < position_of(ids, id) ==> ids[k] != id,
    decreases ids.len(),
{
    if ids.len() > 0 {
        let p = ids.drop_last();
        lemma_position_of(p, id);
        assert forall|k: int| 0 <= k < p.len() implies p[k] == ids[k] by {}
    }
}

/// The places that trade when track `id` moves by `delta` in the playing
/// order `ids`; see `move_spec`.
pub fn move_places(ids: &Vec<String>, id: &str, delta: i64) -> (r: Option<(usize, usize)>)
    ensures
        match r {
            Some((i, j)) => move_spec(ids@.map_values(|s: String| s@), id@, delta as int) == Some(
                (i as int, j as int),
            ),
            None => move_spec(ids@.map_values(|s: String| s@), id@, delta as int) is None,
        },
{
    let ghost v = ids@.map_values(|s: String| s@);
    proof {
        lemma_position_of(v, id@);
    }
    let want = chars_of(id);
    let mut k: usize = 0;
    let mut here: Option<usize> = None;
    while k < ids.len()
        invariant_except_break
            here is None,
        invariant
            k <= ids@.len(),
            v == ids@.map_values(|s: String| s@),
            want@ == id@,
            forall|m: int| 0 <= m < k ==> v[m] != id@,
        ensures
            match here {
                Some(h) => h < ids@.len() && v[h as int] == id@ && forall|m: int| 0 <= m < h ==> v[m] != id@,
                None => forall|m: int| 0 <= m < ids@.len() ==> v[m] != id@,
            },
        decreases ids.len() - k,
    {
        assert(v[k as int] == ids@[k as int]@);
        if chars_eq(&chars_of(ids[k].as_str()), &want) {
            here = Some(k);
            break;
        }
        k += 1;
    }
    let h = match here {
        None => {
            proof {
                if position_of(v, id@) >= 0 {
                    assert(v[position_of(v, id@)] == id@);
                }
            }
            return None;
        },
        Some(h) => h,
    };
    proof {
        assert(position_of(v, id@) == h) by {
            let p = position_of(v, id@);
            if p < 0 {
                assert(v[h as int] != id@);
            } else if p < h {
                assert(v[p] != id@);
            } else if p > h {
                assert(v[h as int] != id@);
            }
        }
    }
    if delta < 0 {
        if h == 0 {
            None
        } else {
            Some((h, h - 1))
        }
    } else if h < ids.len() - 1 {
        Some((h, h + 1))
    } else {
        None
    }
}

/// A move only reorders: the track lands one place over, its neighbour takes
/// its place, and everything else stays where it was.
pub proof fn lemma_move_reorders(ids: Seq<Seq<char>>, id: Seq<char>, delta: int)
    requires
        move_spec(ids, id, delta) is Some,
    ensures
        ({
            let (i, j) = move_spec(ids, id, delta)->0;
            let after = swapped(ids, i, j);
            &&& after.len() == ids.len()
            &&& after[j] == id
            &&& after[i] == ids[j]
            &&& (delta < 0 ==> j == i - 1) && (delta >= 0 ==> j == i + 1)
            &&& forall|k: int| 0 <= k < ids.len() && k != i && k != j ==> after[k] == ids[k]
            &&& after.to_multiset() == ids.to_multiset()
        }),
{
    lemma_position_of(ids, id);
    let (i, j) = move_spec(ids, id, delta)->0;
    let after = swapped(ids, i, j);
    let mid = ids.update(i, ids[j]);
    ids.to_multiset_ensures();
    mid.to_multiset_ensures();
    after.to_multiset_ensures();
    vstd::seq_lib::lemma_multiset_commutative(ids.take(0), ids);
    assert(mid.to_multiset() == ids.to_multiset().remove(ids[i]).insert(ids[j])) by {
        vstd::seq_lib::to_multiset_update(ids, i, ids[j]);
    }
    assert(after.to_multiset() == mid.to_multiset().remove(mid[j]).insert(ids[i])) by {
        vstd::seq_lib::to_multiset_update(mid, j, ids[i]);
    }
    assert(mid[j] == ids[j]);
    assert(ids.to_multiset().count(ids[i]) > 0) by {
        assert(ids.contains(ids[i]));
    }
    assert(ids.to_multiset().remove(ids[i]).insert(ids[j]).count(ids[j]) > 0);
    assert(after.to_multiset() =~= ids.to_multiset());
}

} // verus!
