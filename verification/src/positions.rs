//! Manual order: each note may claim a position, and no two notes may hold
//! the same one. This module finds the claims that cannot stand and gives
//! the notes that made them the lowest positions that are free. A claim
//! that stands is never touched.
use vstd::prelude::*;

verus! {

/// How many notes claim position `p`.
pub open spec fn claims(ps: Seq<Option<i32>>, p: i32) -> nat
    decreases ps.len(),
{
    if ps.len() == 0 {
        0
    } else {
        claims(ps.drop_last(), p) + if ps.last() == Some(p) {
            1nat
        } else {
            0nat
        }
    }
}

/// Whether a claim cannot stand whatever the other notes end up with: the
/// position is negative, or another note claims it too.
pub open spec fn contested(ps: Seq<Option<i32>>, i: int) -> bool {
    match ps[i] {
        None => false,
        Some(p) => p < 0 || claims(ps, p) > 1,
    }
}

/// Whether `q` is the lowest position, from zero up, that none of `ps` holds.
pub open spec fn is_lowest_free(ps: Seq<Option<i32>>, q: i32) -> bool {
    &&& q >= 0
    &&& !ps.contains(Some(q))
    &&& forall|r: i32| 0 <= r < q ==> ps.contains(Some(r))
}

/// The lowest position, from zero up, that none of `ps` holds.
pub open spec fn lowest_free(ps: Seq<Option<i32>>) -> i32 {
    choose|q: i32| is_lowest_free(ps, q)
}

/// The position to give a note: the lowest, from zero up, that none of
/// `ps` holds, or none where every position is held.
pub open spec fn free_position(ps: Seq<Option<i32>>) -> Option<i32> {
    if exists|q: i32| is_lowest_free(ps, q) {
        Some(lowest_free(ps))
    } else {
        None
    }
}

/// The positions that are not to be given away while the repair goes on,
/// the first notes having ended up with the positions `done`: those
/// positions, and the positions of the notes still to come whose claims
/// stand. A note still to come whose claim is contested holds nothing.
pub open spec fn held(ps: Seq<Option<i32>>, done: Seq<Option<i32>>) -> Seq<Option<i32>> {
    Seq::new(
        ps.len(),
        |i: int|
            if i < done.len() {
                done[i]
            } else if contested(ps, i) {
                None
            } else {
                ps[i]
            },
    )
}

/// The positions of the first `k` notes after repair.
pub open spec fn repaired_upto(ps: Seq<Option<i32>>, k: nat) -> Seq<Option<i32>>
    decreases k,
{
    if k == 0 || k > ps.len() {
        Seq::empty()
    } else {
        let done = repaired_upto(ps, (k - 1) as nat);
        done.push(
            if contested(ps, k - 1) {
                free_position(held(ps, done))
            } else {
                ps[k - 1]
            },
        )
    }
}

/// The positions after repair. A note whose claim stands keeps its
/// position, and so does a note without one. The notes whose claims are
/// contested are taken in order, and each gets the lowest position that
/// no note holds at that point: neither a note whose claim stands nor a
/// note that was given a position before. Where every position there is
/// is held, the note is left without one.
pub open spec fn repaired(ps: Seq<Option<i32>>) -> Seq<Option<i32>> {
    repaired_upto(ps, ps.len())
}

/// Whether note `i` is given a new position by the repair: whether its
/// claim is contested.
pub open spec fn repair_displaces(ps: Seq<Option<i32>>, i: int) -> bool {
    contested(ps, i)
}

/// No position is held twice, and none is negative.
pub open spec fn positions_sound(ps: Seq<Option<i32>>) -> bool {
    &&& forall|i: int| 0 <= i < ps.len() && (#[trigger] ps[i]) is Some ==> ps[i]->0 >= 0
    &&& forall|i: int, j: int|
        0 <= i < j < ps.len() && (#[trigger] ps[i]) is Some ==> ps[i] != #[trigger] ps[j]
}

/// A note that holds `p` is counted among its claims.
pub proof fn lemma_claims_one(ps: Seq<Option<i32>>, i: int, p: i32)
    requires
        0 <= i < ps.len(),
        ps[i] == Some(p),
    ensures
        claims(ps, p) >= 1,
    decreases ps.len(),
{
    if i < ps.len() - 1 {
        lemma_claims_one(ps.drop_last(), i, p);
    }
}

/// Two notes that hold `p` are both counted.
pub proof fn lemma_claims_two(ps: Seq<Option<i32>>, i: int, j: int, p: i32)
    requires
        0 <= i < j < ps.len(),
        ps[i] == Some(p),
        ps[j] == Some(p),
    ensures
        claims(ps, p) >= 2,
    decreases ps.len(),
{
    if j < ps.len() - 1 {
        lemma_claims_two(ps.drop_last(), i, j, p);
    } else {
        lemma_claims_one(ps.drop_last(), i, p);
    }
}

/// A position that is claimed more than once is held by two notes.
pub proof fn lemma_claims_witness(ps: Seq<Option<i32>>, p: i32) -> (r: (int, int))
    requires
        claims(ps, p) >= 2,
    ensures
        0 <= r.0 < r.1 < ps.len(),
        ps[r.0] == Some(p),
        ps[r.1] == Some(p),
    decreases ps.len(),
{
    if ps.last() == Some(p) {
        let i = lemma_claim_witness(ps.drop_last(), p);
        (i, ps.len() - 1)
    } else {
        lemma_claims_witness(ps.drop_last(), p)
    }
}

/// A position that is claimed is held by a note.
pub proof fn lemma_claim_witness(ps: Seq<Option<i32>>, p: i32) -> (i: int)
    requires
        claims(ps, p) >= 1,
    ensures
        0 <= i < ps.len(),
        ps[i] == Some(p),
    decreases ps.len(),
{
    if ps.last() == Some(p) {
        ps.len() - 1
    } else {
        lemma_claim_witness(ps.drop_last(), p)
    }
}

/// Where every position from zero up to `m` is held, there are at least
/// `m` notes.
pub proof fn lemma_range_fits(ps: Seq<Option<i32>>, m: int)
    requires
        0 <= m <= i32::MAX,
        forall|r: i32| 0 <= r < m ==> ps.contains(Some(r)),
    ensures
        m <= ps.len(),
    decreases m,
{
    if m > 0 {
        let top = (m - 1) as i32;
        assert(ps.contains(Some(top)));
        let k = choose|k: int| 0 <= k < ps.len() && ps[k] == Some(top);
        let rest = ps.remove(k);
        assert forall|r: i32| 0 <= r < m - 1 implies rest.contains(Some(r)) by {
            assert(ps.contains(Some(r)));
            let j = choose|j: int| 0 <= j < ps.len() && ps[j] == Some(r);
            if j < k {
                assert(rest[j] == ps[j]);
            } else {
                assert(rest[j - 1] == ps[j]);
            }
        }
        lemma_range_fits(rest, m - 1);
    }
}

/// Fewer notes than `i32` has non-negative values leave a position free.
pub proof fn lemma_lowest_free_exists(ps: Seq<Option<i32>>)
    requires
        ps.len() < i32::MAX,
    ensures
        is_lowest_free(ps, lowest_free(ps)),
        lowest_free(ps) <= ps.len(),
        free_position(ps) == Some(lowest_free(ps)),
{
    let q = lemma_lowest_free_from(ps, 0);
    lemma_range_fits(ps, q as int);
}

/// Searches upward from `from`, below which every position is held.
proof fn lemma_lowest_free_from(ps: Seq<Option<i32>>, from: i32) -> (q: i32)
    requires
        ps.len() < i32::MAX,
        0 <= from,
        forall|r: i32| 0 <= r < from ==> ps.contains(Some(r)),
    ensures
        is_lowest_free(ps, q),
    decreases ps.len() - from,
{
    lemma_range_fits(ps, from as int);
    if ps.contains(Some(from)) {
        lemma_range_fits(ps, from + 1);
        lemma_lowest_free_from(ps, (from + 1) as i32)
    } else {
        from
    }
}

/// The lowest free position is the only one of its kind.
pub proof fn lemma_lowest_free_unique(ps: Seq<Option<i32>>, q: i32)
    requires
        is_lowest_free(ps, q),
    ensures
        lowest_free(ps) == q,
        free_position(ps) == Some(q),
{
    let c = lowest_free(ps);
    assert(is_lowest_free(ps, c));
    if c < q {
        assert(ps.contains(Some(c)));
    } else if q < c {
        assert(ps.contains(Some(q)));
    }
}

/// The repair goes note by note: what the first notes end up with does
/// not depend on how many more are repaired.
pub proof fn lemma_repaired_prefix(ps: Seq<Option<i32>>, k: nat, m: nat)
    requires
        k <= m <= ps.len(),
    ensures
        repaired_upto(ps, k).len() == k,
        repaired_upto(ps, k) == repaired_upto(ps, m).take(k as int),
    decreases m,
{
    if m == 0 || k == m {
        lemma_repaired_len(ps, k);
        assert(repaired_upto(ps, m).take(k as int) =~= repaired_upto(ps, m));
    } else {
        lemma_repaired_prefix(ps, k, (m - 1) as nat);
        lemma_repaired_len(ps, (m - 1) as nat);
        assert(repaired_upto(ps, m).take(k as int) =~= repaired_upto(ps, (m - 1) as nat).take(
            k as int,
        ));
    }
}

/// The repair gives each of the first `k` notes one entry.
pub proof fn lemma_repaired_len(ps: Seq<Option<i32>>, k: nat)
    requires
        k <= ps.len(),
    ensures
        repaired_upto(ps, k).len() == k,
    decreases k,
{
    if k > 0 {
        lemma_repaired_len(ps, (k - 1) as nat);
    }
}

/// A note whose claim stands, or that has no position, ends up with what
/// it had.
pub proof fn lemma_uncontested_keeps(ps: Seq<Option<i32>>, i: int)
    requires
        0 <= i < ps.len(),
        !contested(ps, i),
    ensures
        repaired(ps)[i] == ps[i],
{
    lemma_repaired_prefix(ps, (i + 1) as nat, ps.len());
    lemma_repaired_len(ps, i as nat);
    lemma_repaired_len(ps, ps.len());
    assert(repaired(ps)[i] == repaired(ps).take(i + 1)[i]);
}

/// The positions that are held before the repair begins are sound.
proof fn lemma_held_at_start(ps: Seq<Option<i32>>)
    ensures
        positions_sound(held(ps, Seq::empty())),
{
    let h = held(ps, Seq::empty());
    assert forall|i: int, j: int| 0 <= i < j < h.len() && (#[trigger] h[i]) is Some implies h[i]
        != #[trigger] h[j] by {
        if h[i] == h[j] {
            lemma_claims_two(ps, i, j, ps[i]->0);
        }
    }
}

/// What holds while the repair goes on, however many notes were taken:
/// the positions that are held are sound, and a note has a position only
/// when it had one; with fewer notes than there are positions, exactly
/// when it had one.
pub proof fn lemma_held_sound(ps: Seq<Option<i32>>, k: nat)
    requires
        k <= ps.len(),
    ensures
        repaired_upto(ps, k).len() == k,
        forall|i: int| 0 <= i < k ==> (#[trigger] repaired_upto(ps, k)[i]) is Some ==> ps[i] is Some,
        ps.len() < i32::MAX ==> forall|i: int|
            0 <= i < k ==> (#[trigger] repaired_upto(ps, k)[i]) is Some == ps[i] is Some,
        positions_sound(held(ps, repaired_upto(ps, k))),
        k > 0 ==> held(ps, repaired_upto(ps, k)) == held(
            ps,
            repaired_upto(ps, (k - 1) as nat),
        ).update(k - 1, repaired_upto(ps, k)[k - 1]),
    decreases k,
{
    if k == 0 {
        lemma_held_at_start(ps);
    } else {
        let done = repaired_upto(ps, (k - 1) as nat);
        let all = repaired_upto(ps, k);
        lemma_held_sound(ps, (k - 1) as nat);
        let before = held(ps, done);
        let after = held(ps, all);
        assert(after =~= before.update(k - 1, all[k - 1]));
        assert forall|i: int| 0 <= i < k && (#[trigger] all[i]) is Some implies ps[i] is Some by {
            if i < k - 1 {
                assert(all[i] == done[i]);
            }
        }
        if ps.len() < i32::MAX {
            lemma_lowest_free_exists(before);
            assert forall|i: int| 0 <= i < k implies (#[trigger] all[i]) is Some == ps[i] is Some by {
                if i < k - 1 {
                    assert(all[i] == done[i]);
                }
            }
        }
        if contested(ps, k - 1) && free_position(before) is None {
            assert(before[k - 1] is None);
            assert(after =~= before);
        } else if contested(ps, k - 1) {
            let q = lowest_free(before);
            assert(is_lowest_free(before, q));
            assert forall|i: int, j: int|
                0 <= i < j < after.len() && (#[trigger] after[i]) is Some implies after[i]
                != #[trigger] after[j] by {
                if i == k - 1 {
                    assert(after[j] == before[j]);
                    if after[j] == Some(q) {
                        assert(before.contains(Some(q)));
                    }
                } else if j == k - 1 {
                    assert(after[i] == before[i]);
                    if after[i] == Some(q) {
                        assert(before.contains(Some(q)));
                    }
                } else {
                    assert(after[i] == before[i]);
                    assert(after[j] == before[j]);
                }
            }
            assert forall|i: int| 0 <= i < after.len() && (#[trigger] after[i]) is Some implies after[i]->0
                >= 0 by {
                if i != k - 1 {
                    assert(after[i] == before[i]);
                }
            }
        } else {
            assert(after =~= before);
        }
    }
}

/// After repair no two notes hold the same position, no position is
/// negative, a note without a position is still without one, and every
/// note whose claim stands holds what it claimed. With fewer notes than
/// there are positions, every note that had a position has one.
pub proof fn lemma_repair_unique(ps: Seq<Option<i32>>)
    ensures
        repaired(ps).len() == ps.len(),
        positions_sound(repaired(ps)),
        forall|i: int| 0 <= i < ps.len() ==> (#[trigger] repaired(ps)[i]) is Some ==> ps[i] is Some,
        ps.len() < i32::MAX ==> forall|i: int|
            0 <= i < ps.len() ==> (#[trigger] repaired(ps)[i]) is Some == ps[i] is Some,
        forall|i: int| 0 <= i < ps.len() && !contested(ps, i) ==> #[trigger] repaired(ps)[i] == ps[i],
{
    lemma_held_sound(ps, ps.len());
    assert(held(ps, repaired(ps)) =~= repaired(ps));
    assert forall|i: int| 0 <= i < ps.len() && !contested(ps, i) implies #[trigger] repaired(
        ps,
    )[i] == ps[i] by {
        lemma_uncontested_keeps(ps, i);
    }
}

/// Sound positions are contested nowhere.
pub proof fn lemma_sound_uncontested(ps: Seq<Option<i32>>, i: int)
    requires
        positions_sound(ps),
        0 <= i < ps.len(),
    ensures
        !contested(ps, i),
{
    if ps[i] is Some {
        let p = ps[i]->0;
        if claims(ps, p) >= 2 {
            let w = lemma_claims_witness(ps, p);
            assert(ps[w.0] == ps[w.1]);
        }
    }
}

/// Where the positions are sound, repair changes nothing and displaces
/// no note; so a second repair after a first is a no-op.
pub proof fn lemma_repair_idempotent(ps: Seq<Option<i32>>)
    ensures
        positions_sound(ps) ==> repaired(ps) == ps,
        repaired(repaired(ps)) == repaired(ps),
        forall|i: int| 0 <= i < ps.len() ==> !repair_displaces(repaired(ps), i),
{
    lemma_repair_unique(ps);
    let once = repaired(ps);
    if positions_sound(ps) {
        assert forall|i: int| 0 <= i < ps.len() implies once[i] == ps[i] by {
            lemma_sound_uncontested(ps, i);
        }
        assert(once =~= ps);
    }
    lemma_repair_unique(once);
    assert forall|i: int| 0 <= i < once.len() implies repaired(once)[i] == once[i]
        && !repair_displaces(once, i) by {
        lemma_sound_uncontested(once, i);
    }
    assert(repaired(once) =~= once);
}

/// A position that is held while the repair goes on is held when it is
/// done, by the same note.
pub proof fn lemma_held_stays(ps: Seq<Option<i32>>, k: nat, i: int)
    requires
        k <= ps.len(),
        0 <= i < ps.len(),
        held(ps, repaired_upto(ps, k))[i] is Some,
    ensures
        repaired(ps)[i] == held(ps, repaired_upto(ps, k))[i],
{
    lemma_repaired_len(ps, k);
    lemma_repaired_len(ps, ps.len());
    if i < k {
        lemma_repaired_prefix(ps, k, ps.len());
        assert(repaired(ps)[i] == repaired(ps).take(k as int)[i]);
    } else {
        lemma_uncontested_keeps(ps, i);
    }
}

/// Where two notes or more claim position zero, exactly one note holds it
/// after repair.
pub proof fn lemma_shared_zero(ps: Seq<Option<i32>>) -> (holder: int)
    requires
        claims(ps, 0) >= 2,
    ensures
        0 <= holder < ps.len(),
        repaired(ps)[holder] == Some(0i32),
        forall|j: int| 0 <= j < ps.len() && j != holder ==> repaired(ps)[j] != Some(0i32),
{
    let w = lemma_claims_witness(ps, 0);
    let f = w.0;
    let done = repaired_upto(ps, f as nat);
    let before = held(ps, done);
    lemma_repair_unique(ps);
    lemma_repaired_len(ps, f as nat);
    let all = repaired(ps);
    let holder = if before.contains(Some(0i32)) {
        let j = choose|j: int| 0 <= j < before.len() && before[j] == Some(0i32);
        lemma_held_stays(ps, f as nat, j);
        j
    } else {
        assert(is_lowest_free(before, 0));
        lemma_lowest_free_unique(before, 0);
        lemma_repaired_prefix(ps, (f + 1) as nat, ps.len());
        assert(repaired_upto(ps, (f + 1) as nat)[f] == Some(0i32));
        assert(all[f] == all.take(f + 1)[f]);
        f
    };
    assert forall|j: int| 0 <= j < ps.len() && j != holder implies all[j] != Some(0i32) by {
        if j < holder {
            assert(all[j] is Some ==> all[j] != all[holder]);
        } else {
            assert(all[holder] != all[j]);
        }
    }
    holder
}

/// How many of the notes claim position `p`.
pub fn count_claims(positions: &Vec<Option<i32>>, p: i32) -> (n: usize)
    ensures
        n == claims(positions@, p),
{
    let mut n: usize = 0;
    let mut i: usize = 0;
    assert(positions@.take(0) =~= Seq::<Option<i32>>::empty());
    while i < positions.len()
        invariant
            i <= positions.len(),
            n <= i,
            n == claims(positions@.take(i as int), p),
        decreases positions.len() - i,
    {
        assert(positions@.take(i + 1).drop_last() =~= positions@.take(i as int));
        match positions[i] {
            Some(q) => {
                if q == p {
                    n += 1;
                }
            },
            None => {},
        }
        i += 1;
    }
    assert(positions@.take(positions.len() as int) =~= positions@);
    n
}

/// Whether one of the notes holds position `p`.
pub fn holds(positions: &Vec<Option<i32>>, p: i32) -> (r: bool)
    ensures
        r == positions@.contains(Some(p)),
{
    let mut i: usize = 0;
    while i < positions.len()
        invariant
            i <= positions.len(),
            forall|j: int| 0 <= j < i ==> positions@[j] != Some(p),
        decreases positions.len() - i,
    {
        match positions[i] {
            Some(q) => {
                if q == p {
                    return true;
                }
            },
            None => {},
        }
        i += 1;
    }
    false
}

/// For each note, whether its claim is contested: negative, or shared
/// with another note. This finds the conflicts and changes nothing.
pub fn detect_conflicts(positions: &Vec<Option<i32>>) -> (flags: Vec<bool>)
    ensures
        flags@.len() == positions@.len(),
        forall|i: int| 0 <= i < flags@.len() ==> flags@[i] == contested(positions@, i),
{
    let mut flags: Vec<bool> = Vec::new();
    let mut i: usize = 0;
    while i < positions.len()
        invariant
            i <= positions.len(),
            flags@.len() == i,
            forall|j: int| 0 <= j < i ==> flags@[j] == contested(positions@, j),
        decreases positions.len() - i,
    {
        let flag = match positions[i] {
            Some(p) => p < 0 || count_claims(positions, p) > 1,
            None => false,
        };
        flags.push(flag);
        i += 1;
    }
    flags
}

/// What a repair comes to: the positions after it, and for each note
/// whether it was given a new one.
pub struct Repair {
    pub positions: Vec<Option<i32>>,
    pub displaced: Vec<bool>,
}

/// Repairs the positions. A note whose claim stands keeps its position.
/// The notes whose claims are contested are taken in order, and each is
/// given the lowest position that no note holds at that point; where
/// every position there is is held, it is left without one.
pub fn repair_positions(positions: &Vec<Option<i32>>) -> (out: Repair)
    ensures
        out.positions@ == repaired(positions@),
        out.displaced@.len() == positions@.len(),
        forall|i: int|
            0 <= i < positions@.len() ==> out.displaced@[i] == repair_displaces(positions@, i),
        forall|i: int|
            0 <= i < positions@.len() && !out.displaced@[i] ==> out.positions@[i] == positions@[i],
        positions_sound(out.positions@),
{
    let flags = detect_conflicts(positions);
    let ghost ps = positions@;
    let mut cover: Vec<Option<i32>> = Vec::new();
    let mut k: usize = 0;
    while k < positions.len()
        invariant
            k <= positions.len(),
            ps == positions@,
            flags@.len() == ps.len(),
            forall|j: int| 0 <= j < flags@.len() ==> flags@[j] == contested(ps, j),
            cover@.len() == k,
            forall|j: int| 0 <= j < k ==> cover@[j] == held(ps, Seq::empty())[j],
        decreases positions.len() - k,
    {
        cover.push(
            if flags[k] {
                None
            } else {
                positions[k]
            },
        );
        k += 1;
    }
    assert(cover@ =~= held(ps, repaired_upto(ps, 0)));
    let mut mark: i32 = 0;
    let mut i: usize = 0;
    while i < positions.len()
        invariant
            i <= positions.len(),
            ps == positions@,
            flags@.len() == ps.len(),
            forall|j: int| 0 <= j < flags@.len() ==> flags@[j] == contested(ps, j),
            cover@.len() == ps.len(),
            cover@ == held(ps, repaired_upto(ps, i as nat)),
            0 <= mark,
            forall|r: i32| 0 <= r < mark ==> cover@.contains(Some(r)),
        decreases positions.len() - i,
    {
        let ghost before = cover@;
        proof {
            lemma_repaired_len(ps, i as nat);
            lemma_repaired_len(ps, (i + 1) as nat);
        }
        if flags[i] {
            while mark < i32::MAX && holds(&cover, mark)
                invariant
                    0 <= mark,
                    forall|r: i32| 0 <= r < mark ==> cover@.contains(Some(r)),
                decreases i32::MAX - mark,
            {
                mark += 1;
            }
            if holds(&cover, mark) {
                proof {
                    assert forall|q: i32| !is_lowest_free(before, q) by {
                        if q >= 0 {
                            assert(before.contains(Some(q)));
                        }
                    }
                    assert(before[i as int] is None);
                    assert(before =~= held(ps, repaired_upto(ps, (i + 1) as nat)));
                }
            } else {
                proof {
                    lemma_lowest_free_unique(before, mark);
                    assert(before[i as int] is None);
                }
                cover.set(i, Some(mark));
                proof {
                    assert forall|r: i32| 0 <= r <= mark implies cover@.contains(Some(r)) by {
                        if r < mark {
                            assert(before.contains(Some(r)));
                            let j = choose|j: int| 0 <= j < before.len() && before[j] == Some(r);
                            assert(cover@[j] == Some(r));
                        } else {
                            assert(cover@[i as int] == Some(r));
                        }
                    }
                }
                if mark < i32::MAX {
                    mark += 1;
                }
            }
        }
        proof {
            assert(cover@ =~= held(ps, repaired_upto(ps, (i + 1) as nat)));
        }
        i += 1;
    }
    proof {
        lemma_repair_unique(ps);
        assert(cover@ =~= repaired(ps));
    }
    Repair { positions: cover, displaced: flags }
}

} // verus!
