//! Taking in the notes that were read from the files: each note gets an
//! id of its own, the first file of an id keeps it, and a later file with
//! the same id gets a new random one.
use vstd::prelude::*;
use crate::clock::new_note_id;
use crate::note::{note_views, Note, NoteView};
use crate::positions::{claims, contested, repair_displaces};
use crate::storage::{
    file_names, file_notes, place_note, renamed, same_text, NoteFile, Placement,
};
use crate::store::{displaced_note, distinct_ids, has_id, positions_of, repaired_notes, NoteStore};
use crate::text::{copy_string, str_eq, views};
use crate::trusted::uuid_text;

verus! {

/// Whether note `n`, kept in the file `name`, was made of the file `f`:
/// it is kept in that file and holds the text of that file's note, under
/// the same id or under a new random id that it was given at `now`.
pub open spec fn loaded_from(n: NoteView, name: Seq<char>, f: NoteFile, now: Seq<char>) -> bool {
    &&& name == f.file_name@
    &&& same_text(n, f.note@)
    &&& n.id == f.note@.id || (n.updated_at == now && exists|v: u128|
        n.id == #[trigger] uuid_text(v))
}

/// Whether note `n`, kept in the file `name`, was made of one of the first
/// `k` files.
#[verifier::opaque]
pub open spec fn stems_from(
    n: NoteView,
    name: Seq<char>,
    fs: Seq<NoteFile>,
    k: int,
    now: Seq<char>,
) -> bool {
    exists|i: int| 0 <= i < k && loaded_from(n, name, #[trigger] fs[i], now)
}

/// Whether one of the first `k` notes has the id.
pub open spec fn id_before(ns: Seq<NoteView>, k: int, id: Seq<char>) -> bool {
    exists|i: int| 0 <= i < k && (#[trigger] ns[i]).id == id
}

/// Whether note `n` came in as one of the first `k` of the notes `all`,
/// or under one of the new ids.
#[verifier::opaque]
pub open spec fn came_in(all: Seq<NoteView>, new_ids: Seq<Seq<char>>, k: int, n: NoteView) -> bool {
    (all.contains(n) && id_before(all, k, n.id)) || new_ids.contains(n.id)
}

/// Whether note `i` is the first with its id.
#[verifier::opaque]
pub open spec fn first_with_id(ns: Seq<NoteView>, i: int) -> bool {
    forall|h: int| 0 <= h < i ==> (#[trigger] ns[h]).id != ns[i].id
}

/// Whether the notes hold `n` as it is, kept in the file `name`.
pub open spec fn kept_in(
    ns: Seq<NoteView>,
    names: Seq<Seq<char>>,
    n: NoteView,
    name: Seq<char>,
) -> bool {
    exists|j: int| 0 <= j < ns.len() && j < names.len() && #[trigger] ns[j] == n && names[j] == name
}

/// Whether the notes hold a note with the id and the text of `n`, kept in
/// the file `name`.
pub open spec fn held_in(
    ns: Seq<NoteView>,
    names: Seq<Seq<char>>,
    n: NoteView,
    name: Seq<char>,
) -> bool {
    exists|j: int|
        0 <= j < ns.len() && j < names.len() && (#[trigger] ns[j]).id == n.id && same_text(
            ns[j],
            n,
        ) && names[j] == name
}

/// Whether the notes hold a note that was made of the file `f` and is
/// kept in it. The note has the id of the file where `first` holds, and
/// only there; where `stands` holds, it has the position that the file
/// gives.
pub open spec fn made_of(
    ns: Seq<NoteView>,
    names: Seq<Seq<char>>,
    f: NoteFile,
    now: Seq<char>,
    first: bool,
    stands: bool,
) -> bool {
    exists|j: int|
        0 <= j < ns.len() && j < names.len() && loaded_from(#[trigger] ns[j], names[j], f, now) && (
        ns[j].id == f.note@.id) == first && (stands ==> ns[j].position == f.note@.position)
}

/// The notes that were taken in, as a mathematical value.
pub struct Intake {
    /// The notes, each under an id of its own.
    pub notes: Seq<NoteView>,
    /// For each note, the name of its file.
    pub files: Seq<Seq<char>>,
    /// The new ids that were given.
    pub renamed: Seq<Seq<char>>,
    /// The notes that could not be given an id of their own.
    pub rejected: Seq<NoteView>,
}

/// What holds of the notes that were taken in from the first `k` files.
#[verifier::opaque]
pub open spec fn taken_in(a: Intake, fs: Seq<NoteFile>, k: int, now: Seq<char>) -> bool {
    let all = file_notes(fs);
    let names = file_names(fs);
    &&& distinct_ids(a.notes)
    &&& a.files.len() == a.notes.len()
    &&& a.notes.len() + a.rejected.len() == k
    &&& forall|j: int|
        0 <= j < a.notes.len() ==> stems_from(#[trigger] a.notes[j], a.files[j], fs, k, now)
    &&& forall|j: int|
        0 <= j < a.renamed.len() ==> has_id(a.notes, #[trigger] a.renamed[j]) && !has_id(
            all,
            a.renamed[j],
        )
    &&& forall|j: int| 0 <= j < a.notes.len() ==> came_in(all, a.renamed, k, #[trigger] a.notes[j])
    &&& forall|i: int|
        0 <= i < k && first_with_id(all, i) ==> kept_in(a.notes, a.files, #[trigger] all[i], names[i])
    &&& forall|i: int| 0 <= i < k ==> has_id(a.notes, (#[trigger] all[i]).id)
    &&& forall|j: int| 0 <= j < a.rejected.len() ==> all.contains(#[trigger] a.rejected[j])
    &&& forall|p: i32|
        claims(positions_of(a.notes), p) <= #[trigger] claims(positions_of(all).take(k), p)
    &&& distinct_ids(all) ==> a.notes == all.take(k) && a.files == names.take(k)
        && a.renamed.len() == 0
}

/// Whether each of the first `k` files was left out or gave a note, with
/// the position that the file gives, and with its id where the file is
/// the first with that id.
pub open spec fn accounted(a: Intake, fs: Seq<NoteFile>, k: int, now: Seq<char>) -> bool {
    &&& a.files.len() == a.notes.len()
    &&& forall|i: int|
        0 <= i < k ==> a.rejected.contains((#[trigger] fs[i]).note@) || made_of(
            a.notes,
            a.files,
            fs[i],
            now,
            first_with_id(file_notes(fs), i),
            true,
        )
}

/// The intake after a note was taken in as it is.
pub open spec fn with_kept(a: Intake, n: NoteView, name: Seq<char>) -> Intake {
    Intake { notes: a.notes.push(n), files: a.files.push(name), ..a }
}

/// The intake after a note was taken in under the new id `id`.
pub open spec fn with_renamed(
    a: Intake,
    n: NoteView,
    name: Seq<char>,
    id: Seq<char>,
    now: Seq<char>,
) -> Intake {
    Intake {
        notes: a.notes.push(renamed(n, id, now)),
        files: a.files.push(name),
        renamed: a.renamed.push(id),
        ..a
    }
}

/// The intake after a note was left out.
pub open spec fn with_rejected(a: Intake, n: NoteView) -> Intake {
    Intake { rejected: a.rejected.push(n), ..a }
}

/// The intake after the note of file `k` was taken in or left out,
/// `candidate` being the id that was drawn for it. A note whose id is free
/// is taken in as it is. A note whose id is taken gets the drawn id, and
/// is left out where a file or a note has that one too.
pub open spec fn after_one(
    a: Intake,
    fs: Seq<NoteFile>,
    k: int,
    candidate: Seq<char>,
    now: Seq<char>,
) -> Intake {
    if !has_id(a.notes, file_notes(fs)[k].id) {
        with_kept(a, file_notes(fs)[k], file_names(fs)[k])
    } else if !has_id(a.notes, candidate) && !has_id(file_notes(fs), candidate) {
        with_renamed(a, file_notes(fs)[k], file_names(fs)[k], candidate, now)
    } else {
        with_rejected(a, file_notes(fs)[k])
    }
}

/// The intake of the first files, as many as there are draws: `draws[i]`
/// is the id that was drawn for file `i`.
pub open spec fn intake_of(fs: Seq<NoteFile>, draws: Seq<Seq<char>>, now: Seq<char>) -> Intake
    decreases draws.len(),
{
    if draws.len() == 0 || draws.len() > fs.len() {
        Intake {
            notes: Seq::empty(),
            files: Seq::empty(),
            renamed: Seq::empty(),
            rejected: Seq::empty(),
        }
    } else {
        after_one(intake_of(fs, draws.drop_last(), now), fs, draws.len() - 1, draws.last(), now)
    }
}

/// Whether `draws` can be what was drawn for the files: there is one for
/// each file, and the one of a file whose id was taken is a random id.
#[verifier::opaque]
pub open spec fn drawn_for(fs: Seq<NoteFile>, draws: Seq<Seq<char>>, now: Seq<char>) -> bool {
    &&& draws.len() == fs.len()
    &&& forall|i: int|
        0 <= i < fs.len() && has_id(
            intake_of(fs, draws.take(i), now).notes,
            (#[trigger] file_notes(fs)[i]).id,
        ) ==> exists|v: u128| draws[i] == #[trigger] uuid_text(v)
}

/// One more claim is counted where it is made.
proof fn lemma_claims_push(ps: Seq<Option<i32>>, x: Option<i32>, p: i32)
    ensures
        claims(ps.push(x), p) == claims(ps, p) + if x == Some(p) {
            1nat
        } else {
            0nat
        },
{
    assert(ps.push(x).drop_last() =~= ps);
}

/// Every file stays accounted for when the note of the next is taken in
/// or left out.
proof fn lemma_accounted_next(
    a: Intake,
    b: Intake,
    fs: Seq<NoteFile>,
    k: int,
    now: Seq<char>,
    id: Seq<char>,
)
    requires
        accounted(a, fs, k, now),
        0 <= k < fs.len(),
        forall|i: int| 0 <= i < k ==> has_id(a.notes, (#[trigger] file_notes(fs)[i]).id),
        has_id(a.notes, file_notes(fs)[k].id) ==> !first_with_id(file_notes(fs), k),
        (!has_id(a.notes, file_notes(fs)[k].id) && b == with_kept(
            a,
            file_notes(fs)[k],
            file_names(fs)[k],
        )) || (has_id(a.notes, file_notes(fs)[k].id) && !has_id(a.notes, id) && b == with_renamed(
            a,
            file_notes(fs)[k],
            file_names(fs)[k],
            id,
            now,
        ) && exists|v: u128| id == #[trigger] uuid_text(v)) || b == with_rejected(
            a,
            file_notes(fs)[k],
        ),
    ensures
        accounted(b, fs, k + 1, now),
{
    let all = file_notes(fs);
    let at = a.notes.len() as int;
    assert forall|i: int| 0 <= i < k + 1 implies b.rejected.contains((#[trigger] fs[i]).note@)
        || made_of(b.notes, b.files, fs[i], now, first_with_id(all, i), true) by {
        if i < k {
            if a.rejected.contains(fs[i].note@) {
                let r = choose|r: int| 0 <= r < a.rejected.len() && a.rejected[r] == fs[i].note@;
                assert(b.rejected[r] == fs[i].note@);
            } else {
                let j = choose|j: int|
                    0 <= j < a.notes.len() && j < a.files.len() && loaded_from(
                        #[trigger] a.notes[j],
                        a.files[j],
                        fs[i],
                        now,
                    ) && (a.notes[j].id == fs[i].note@.id) == first_with_id(all, i)
                        && a.notes[j].position == fs[i].note@.position;
                assert(b.notes[j] == a.notes[j] && b.files[j] == a.files[j]);
            }
        } else if b == with_rejected(a, all[k]) {
            assert(b.rejected[a.rejected.len() as int] == fs[k].note@);
        } else {
            assert(loaded_from(b.notes[at], b.files[at], fs[k], now));
            if !has_id(a.notes, all[k].id) {
                assert(first_with_id(all, k)) by {
                    reveal(first_with_id);
                    assert forall|h: int| 0 <= h < k implies (#[trigger] all[h]).id != all[k].id by {
                        assert(has_id(a.notes, all[h].id));
                    }
                }
                assert(b.notes[at].id == fs[k].note@.id);
            } else {
                assert(b.notes[at].id == id);
                assert(id != all[k].id);
            }
        }
    }
}

/// What a note that is in the intake already goes on to satisfy when one
/// more file is looked at.
proof fn lemma_still_stems(a: Intake, b: Intake, fs: Seq<NoteFile>, k: int, now: Seq<char>)
    requires
        taken_in(a, fs, k, now),
        0 <= k < fs.len(),
        b.notes.len() >= a.notes.len(),
        b.files.len() >= a.notes.len(),
        b.renamed.len() >= a.renamed.len(),
        forall|j: int| 0 <= j < a.notes.len() ==> b.notes[j] == a.notes[j] && b.files[j] == a.files[j],
        forall|j: int| 0 <= j < a.renamed.len() ==> b.renamed[j] == a.renamed[j],
    ensures
        forall|j: int|
            0 <= j < a.notes.len() ==> stems_from(#[trigger] b.notes[j], b.files[j], fs, k + 1, now),
        forall|j: int|
            0 <= j < a.renamed.len() ==> has_id(b.notes, #[trigger] b.renamed[j]) && !has_id(
                file_notes(fs),
                b.renamed[j],
            ),
        forall|j: int|
            0 <= j < a.notes.len() ==> came_in(
                file_notes(fs),
                b.renamed,
                k + 1,
                #[trigger] b.notes[j],
            ),
        forall|i: int|
            0 <= i < k && first_with_id(file_notes(fs), i) ==> kept_in(
                b.notes,
                b.files,
                #[trigger] file_notes(fs)[i],
                file_names(fs)[i],
            ),
        forall|i: int| 0 <= i < k ==> has_id(b.notes, (#[trigger] file_notes(fs)[i]).id),
{
    reveal(taken_in);
    let all = file_notes(fs);
    let names = file_names(fs);
    assert forall|j: int| 0 <= j < a.notes.len() implies stems_from(
        #[trigger] b.notes[j],
        b.files[j],
        fs,
        k + 1,
        now,
    ) by {
        reveal(stems_from);
        assert(stems_from(a.notes[j], a.files[j], fs, k, now));
        let i = choose|i: int| 0 <= i < k && loaded_from(a.notes[j], a.files[j], #[trigger] fs[i], now);
        assert(loaded_from(b.notes[j], b.files[j], fs[i], now));
    }
    assert forall|j: int| 0 <= j < a.renamed.len() implies has_id(
        b.notes,
        #[trigger] b.renamed[j],
    ) && !has_id(all, b.renamed[j]) by {
        assert(has_id(a.notes, a.renamed[j]));
        let i = choose|i: int| 0 <= i < a.notes.len() && (#[trigger] a.notes[i]).id == a.renamed[j];
        assert(b.notes[i].id == b.renamed[j]);
    }
    assert forall|j: int| 0 <= j < a.notes.len() implies came_in(
        all,
        b.renamed,
        k + 1,
        #[trigger] b.notes[j],
    ) by {
        reveal(came_in);
        let n = a.notes[j];
        assert(came_in(all, a.renamed, k, n));
        if all.contains(n) && id_before(all, k, n.id) {
            let i = choose|i: int| 0 <= i < k && (#[trigger] all[i]).id == n.id;
            assert(all[i].id == b.notes[j].id);
        } else {
            assert(a.renamed.contains(n.id));
            let r = choose|r: int| 0 <= r < a.renamed.len() && a.renamed[r] == n.id;
            assert(b.renamed[r] == b.notes[j].id);
        }
    }
    assert forall|i: int| 0 <= i < k && first_with_id(all, i) implies kept_in(
        b.notes,
        b.files,
        #[trigger] all[i],
        names[i],
    ) by {
        assert(kept_in(a.notes, a.files, all[i], names[i]));
        let j = choose|j: int|
            0 <= j < a.notes.len() && j < a.files.len() && #[trigger] a.notes[j] == all[i]
                && a.files[j] == names[i];
        assert(b.notes[j] == all[i] && b.files[j] == names[i]);
    }
    assert forall|i: int| 0 <= i < k implies has_id(b.notes, (#[trigger] all[i]).id) by {
        assert(has_id(a.notes, all[i].id));
        let j = choose|j: int| 0 <= j < a.notes.len() && (#[trigger] a.notes[j]).id == all[i].id;
        assert(b.notes[j].id == all[i].id);
    }
}

/// A file whose id a note of the intake has is not the first with its id.
proof fn lemma_taken_is_not_first(a: Intake, fs: Seq<NoteFile>, k: int, now: Seq<char>)
    requires
        taken_in(a, fs, k, now),
        0 <= k < fs.len(),
        has_id(a.notes, file_notes(fs)[k].id),
    ensures
        !first_with_id(file_notes(fs), k),
        !distinct_ids(file_notes(fs)),
{
    reveal(taken_in);
    let all = file_notes(fs);
    let j = choose|j: int| 0 <= j < a.notes.len() && (#[trigger] a.notes[j]).id == all[k].id;
    assert(id_before(all, k, all[k].id)) by {
        reveal(came_in);
        assert(came_in(all, a.renamed, k, a.notes[j]));
        if a.renamed.contains(a.notes[j].id) {
            let r = choose|r: int| 0 <= r < a.renamed.len() && a.renamed[r] == a.notes[j].id;
            assert(!has_id(all, a.renamed[r]));
            assert(all[k].id == a.renamed[r]);
        }
    }
    let i = choose|i: int| 0 <= i < k && (#[trigger] all[i]).id == all[k].id;
    assert(!first_with_id(all, k)) by {
        reveal(first_with_id);
        assert(all[i].id == all[k].id);
    }
}

/// The claims of the notes of the intake stay within those of the files
/// when a note is taken in with the position of its file, or left out.
proof fn lemma_claims_within(a: Intake, b: Intake, fs: Seq<NoteFile>, k: int)
    requires
        forall|p: i32|
            claims(positions_of(a.notes), p) <= #[trigger] claims(
                positions_of(file_notes(fs)).take(k),
                p,
            ),
        0 <= k < fs.len(),
        b.notes == a.notes || (b.notes.len() == a.notes.len() + 1 && b.notes.drop_last() == a.notes
            && b.notes.last().position == file_notes(fs)[k].position),
    ensures
        forall|p: i32|
            claims(positions_of(b.notes), p) <= #[trigger] claims(
                positions_of(file_notes(fs)).take(k + 1),
                p,
            ),
{
    let all = file_notes(fs);
    let ps = positions_of(all);
    assert(ps.take(k + 1) =~= ps.take(k).push(all[k].position));
    assert forall|p: i32|
        claims(positions_of(b.notes), p) <= #[trigger] claims(ps.take(k + 1), p) by {
        lemma_claims_push(ps.take(k), all[k].position, p);
        assert(claims(positions_of(a.notes), p) <= claims(ps.take(k), p));
        if b.notes != a.notes {
            assert(positions_of(b.notes) =~= positions_of(a.notes).push(all[k].position));
            lemma_claims_push(positions_of(a.notes), all[k].position, p);
        }
    }
}

/// What holds of an intake, but for what goes from a note to its file and
/// from a file to its note.
pub(crate) proof fn lemma_intake_parts(a: Intake, fs: Seq<NoteFile>, k: int, now: Seq<char>)
    requires
        taken_in(a, fs, k, now),
    ensures
        distinct_ids(a.notes),
        a.files.len() == a.notes.len(),
        a.notes.len() + a.rejected.len() == k,
        forall|j: int| 0 <= j < a.rejected.len() ==> file_notes(fs).contains(#[trigger] a.rejected[j]),
        forall|p: i32|
            claims(positions_of(a.notes), p) <= #[trigger] claims(
                positions_of(file_notes(fs)).take(k),
                p,
            ),
        forall|j: int|
            0 <= j < a.notes.len() ==> came_in(file_notes(fs), a.renamed, k, #[trigger] a.notes[j]),
        distinct_ids(file_notes(fs)) ==> a.notes == file_notes(fs).take(k) && a.files
            == file_names(fs).take(k) && a.renamed.len() == 0,
{
    reveal(taken_in);
}

/// An intake of which all this holds is as it should be.
proof fn lemma_intake_made(b: Intake, fs: Seq<NoteFile>, k: int, now: Seq<char>)
    requires
        distinct_ids(b.notes),
        b.files.len() == b.notes.len(),
        b.notes.len() + b.rejected.len() == k,
        forall|j: int|
            0 <= j < b.notes.len() ==> stems_from(#[trigger] b.notes[j], b.files[j], fs, k, now),
        forall|j: int|
            0 <= j < b.renamed.len() ==> has_id(b.notes, #[trigger] b.renamed[j]) && !has_id(
                file_notes(fs),
                b.renamed[j],
            ),
        forall|j: int|
            0 <= j < b.notes.len() ==> came_in(file_notes(fs), b.renamed, k, #[trigger] b.notes[j]),
        forall|i: int|
            0 <= i < k && first_with_id(file_notes(fs), i) ==> kept_in(
                b.notes,
                b.files,
                #[trigger] file_notes(fs)[i],
                file_names(fs)[i],
            ),
        forall|i: int| 0 <= i < k ==> has_id(b.notes, (#[trigger] file_notes(fs)[i]).id),
        forall|j: int| 0 <= j < b.rejected.len() ==> file_notes(fs).contains(#[trigger] b.rejected[j]),
        forall|p: i32|
            claims(positions_of(b.notes), p) <= #[trigger] claims(
                positions_of(file_notes(fs)).take(k),
                p,
            ),
        distinct_ids(file_notes(fs)) ==> b.notes == file_notes(fs).take(k) && b.files
            == file_names(fs).take(k) && b.renamed.len() == 0,
    ensures
        taken_in(b, fs, k, now),
{
    reveal(taken_in);
}

/// Taking a note in as it is keeps the intake as it should be.
proof fn lemma_take_kept(a: Intake, fs: Seq<NoteFile>, k: int, now: Seq<char>)
    requires
        taken_in(a, fs, k, now),
        0 <= k < fs.len(),
        !has_id(a.notes, file_notes(fs)[k].id),
    ensures
        taken_in(with_kept(a, file_notes(fs)[k], file_names(fs)[k]), fs, k + 1, now),
{
    let all = file_notes(fs);
    let names = file_names(fs);
    let n = all[k];
    let b = with_kept(a, n, names[k]);
    let at = a.notes.len() as int;
    lemma_intake_parts(a, fs, k, now);
    lemma_still_stems(a, b, fs, k, now);
    assert(b.notes.drop_last() =~= a.notes);
    lemma_claims_within(a, b, fs, k);
    assert(distinct_ids(b.notes)) by {
        assert forall|i: int, j: int| 0 <= i < j < b.notes.len() implies (#[trigger] b.notes[i]).id
            != (#[trigger] b.notes[j]).id by {
            if j == at {
                assert(a.notes[i].id != n.id);
            } else {
                assert(a.notes[i].id != a.notes[j].id);
            }
        }
    }
    assert(stems_from(b.notes[at], b.files[at], fs, k + 1, now)) by {
        reveal(stems_from);
        assert(loaded_from(b.notes[at], b.files[at], fs[k], now));
    }
    assert(came_in(all, b.renamed, k + 1, b.notes[at])) by {
        reveal(came_in);
        assert(all[k] == b.notes[at]);
    }
    assert(kept_in(b.notes, b.files, all[k], names[k])) by {
        assert(b.notes[at] == all[k] && b.files[at] == names[k]);
    }
    assert(has_id(b.notes, all[k].id)) by {
        assert(b.notes[at].id == all[k].id);
    }
    if distinct_ids(all) {
        assert(b.notes =~= all.take(k + 1));
        assert(b.files =~= names.take(k + 1));
    }
    lemma_intake_made(b, fs, k + 1, now);
}

/// Taking a note in under a new id keeps the intake as it should be.
proof fn lemma_take_renamed(a: Intake, fs: Seq<NoteFile>, k: int, now: Seq<char>, id: Seq<char>)
    requires
        taken_in(a, fs, k, now),
        0 <= k < fs.len(),
        has_id(a.notes, file_notes(fs)[k].id),
        !has_id(a.notes, id),
        !has_id(file_notes(fs), id),
        exists|v: u128| id == #[trigger] uuid_text(v),
    ensures
        taken_in(with_renamed(a, file_notes(fs)[k], file_names(fs)[k], id, now), fs, k + 1, now),
{
    let all = file_notes(fs);
    let names = file_names(fs);
    let n = renamed(all[k], id, now);
    let b = with_renamed(a, all[k], names[k], id, now);
    let at = a.notes.len() as int;
    lemma_intake_parts(a, fs, k, now);
    lemma_still_stems(a, b, fs, k, now);
    lemma_taken_is_not_first(a, fs, k, now);
    assert(b.notes.drop_last() =~= a.notes);
    lemma_claims_within(a, b, fs, k);
    assert(distinct_ids(b.notes)) by {
        assert forall|i: int, j: int| 0 <= i < j < b.notes.len() implies (#[trigger] b.notes[i]).id
            != (#[trigger] b.notes[j]).id by {
            if j == at {
                assert(a.notes[i].id != id);
            } else {
                assert(a.notes[i].id != a.notes[j].id);
            }
        }
    }
    assert(stems_from(b.notes[at], b.files[at], fs, k + 1, now)) by {
        reveal(stems_from);
        assert(loaded_from(b.notes[at], b.files[at], fs[k], now));
    }
    assert(came_in(all, b.renamed, k + 1, b.notes[at])) by {
        reveal(came_in);
        assert(b.renamed[a.renamed.len() as int] == id);
    }
    assert(has_id(b.notes, id)) by {
        assert(b.notes[at].id == id);
    }
    assert(has_id(b.notes, all[k].id)) by {
        let j = choose|j: int| 0 <= j < a.notes.len() && (#[trigger] a.notes[j]).id == all[k].id;
        assert(b.notes[j].id == all[k].id);
    }
    lemma_intake_made(b, fs, k + 1, now);
}

/// Leaving a note out keeps the intake as it should be.
proof fn lemma_take_rejected(a: Intake, fs: Seq<NoteFile>, k: int, now: Seq<char>, id: Seq<char>)
    requires
        taken_in(a, fs, k, now),
        0 <= k < fs.len(),
        has_id(a.notes, file_notes(fs)[k].id),
        has_id(a.notes, id) || has_id(file_notes(fs), id),
        exists|v: u128| id == #[trigger] uuid_text(v),
    ensures
        taken_in(with_rejected(a, file_notes(fs)[k]), fs, k + 1, now),
{
    let all = file_notes(fs);
    let b = with_rejected(a, all[k]);
    lemma_intake_parts(a, fs, k, now);
    lemma_still_stems(a, b, fs, k, now);
    lemma_taken_is_not_first(a, fs, k, now);
    lemma_claims_within(a, b, fs, k);
    assert(has_id(b.notes, all[k].id));
    assert forall|j: int| 0 <= j < b.rejected.len() implies all.contains(
        #[trigger] b.rejected[j],
    ) by {
        if j < a.rejected.len() {
            assert(b.rejected[j] == a.rejected[j]);
        }
    }
    lemma_intake_made(b, fs, k + 1, now);
}

/// The notes that were taken in.
pub struct Accepted {
    /// The notes, each under an id of its own.
    pub notes: NoteStore,
    /// For each note that was taken in, the name of its file.
    pub files: Vec<String>,
    /// The new ids that were given.
    pub renamed: Vec<String>,
    /// The notes that could not be given an id of their own.
    pub rejected: Vec<Note>,
}

impl View for Accepted {
    type V = Intake;

    open spec fn view(&self) -> Intake {
        Intake {
            notes: self.notes@,
            files: views(self.files@),
            renamed: views(self.renamed@),
            rejected: note_views(self.rejected@),
        }
    }
}

/// The ids of the files that were looked at are ids of notes, and a file
/// whose id a note has is not the first with its id.
proof fn lemma_ids_so_far(a: Intake, fs: Seq<NoteFile>, k: int, now: Seq<char>)
    requires
        taken_in(a, fs, k, now),
        0 <= k < fs.len(),
    ensures
        forall|i: int| 0 <= i < k ==> has_id(a.notes, (#[trigger] file_notes(fs)[i]).id),
        has_id(a.notes, file_notes(fs)[k].id) ==> !first_with_id(file_notes(fs), k),
{
    reveal(taken_in);
    if has_id(a.notes, file_notes(fs)[k].id) {
        lemma_taken_is_not_first(a, fs, k, now);
    }
}

/// Whether one of the files holds a note with the id.
pub(crate) fn id_among(parsed: &Vec<NoteFile>, id: &str) -> (r: bool)
    ensures
        r == has_id(file_notes(parsed@), id@),
{
    let mut i: usize = 0;
    while i < parsed.len()
        invariant
            i <= parsed.len(),
            forall|j: int| 0 <= j < i ==> (#[trigger] file_notes(parsed@)[j]).id != id@,
        decreases parsed.len() - i,
    {
        if str_eq(parsed[i].note.id.as_str(), id) {
            assert(file_notes(parsed@)[i as int].id == id@);
            return true;
        }
        i += 1;
    }
    false
}

/// Takes in the note of file `k`, after the notes of the files before it.
/// A note whose id is free is taken in as it is. A note whose id is taken
/// gets `candidate` as its id, and counts as updated at `now`; where a
/// file or a note has that id too, the note is left out.
pub fn accept_one(acc: &mut Accepted, parsed: &Vec<NoteFile>, k: usize, candidate: &str, now: &str)
    requires
        old(acc).notes.wf(),
        k < parsed@.len(),
        taken_in(old(acc)@, parsed@, k as int, now@),
        has_id(old(acc)@.notes, file_notes(parsed@)[k as int].id) ==> exists|v: u128|
            candidate@ == #[trigger] uuid_text(v),
    ensures
        final(acc).notes.wf(),
        taken_in(final(acc)@, parsed@, k + 1, now@),
        final(acc)@ == after_one(old(acc)@, parsed@, k as int, candidate@, now@),
{
    let file = &parsed[k];
    let ghost before = acc@;
    let ghost n = file_notes(parsed@)[k as int];
    let ghost name = file_names(parsed@)[k as int];
    assert(file.note@ == n && file.file_name@ == name);
    let taken = acc.notes.contains(file.note.id.as_str());
    if taken && (id_among(parsed, candidate) || acc.notes.contains(candidate)) {
        acc.rejected.push(file.note.copy());
        proof {
            assert(acc@.rejected =~= before.rejected.push(n));
            assert(acc@ == with_rejected(before, n));
            lemma_take_rejected(before, parsed@, k as int, now@, candidate@);
        }
        return ;
    }
    let placement = place_note(&mut acc.notes, &file.note, candidate, now);
    acc.files.push(copy_string(&file.file_name));
    match placement {
        Placement::Kept => {
            proof {
                assert(acc@.files =~= before.files.push(name));
                assert(acc@ == with_kept(before, n, name));
                lemma_take_kept(before, parsed@, k as int, now@);
            }
        },
        Placement::Renamed => {
            acc.renamed.push(candidate.to_owned());
            proof {
                assert(acc@.files =~= before.files.push(name));
                assert(acc@.renamed =~= before.renamed.push(candidate@));
                assert(acc@ == with_renamed(before, n, name, candidate@, now@));
                lemma_take_renamed(before, parsed@, k as int, now@, candidate@);
            }
        },
        Placement::Rejected => {
            assert(false);
        },
    }
}

/// Takes the notes in, one by one, each under an id of its own. A note
/// whose id is taken gets a new random id. It hands back, beside the
/// intake, what was drawn.
pub(crate) fn accept_notes(parsed: &Vec<NoteFile>, now: &str) -> (out: (
    Accepted,
    Ghost<Seq<Seq<char>>>,
))
    ensures
        out.0.notes.wf(),
        taken_in(out.0@, parsed@, parsed@.len() as int, now@),
        accounted(out.0@, parsed@, parsed@.len() as int, now@),
        drawn_for(parsed@, out.1@, now@),
        out.0@ == intake_of(parsed@, out.1@, now@),
{
    let mut acc = Accepted {
        notes: NoteStore::new(),
        files: Vec::new(),
        renamed: Vec::new(),
        rejected: Vec::new(),
    };
    let ghost mut draws: Seq<Seq<char>> = Seq::empty();
    proof {
        let all = file_notes(parsed@);
        assert(acc@.files =~= Seq::<Seq<char>>::empty());
        assert(acc@.renamed =~= Seq::<Seq<char>>::empty());
        assert(acc@.rejected =~= Seq::<NoteView>::empty());
        assert(positions_of(acc@.notes) =~= positions_of(all).take(0));
        assert(acc@.notes =~= all.take(0));
        assert(acc@.files =~= file_names(parsed@).take(0));
        lemma_intake_made(acc@, parsed@, 0, now@);
    }
    let mut k: usize = 0;
    while k < parsed.len()
        invariant
            k <= parsed.len(),
            acc.notes.wf(),
            taken_in(acc@, parsed@, k as int, now@),
            accounted(acc@, parsed@, k as int, now@),
            draws.len() == k,
            acc@ == intake_of(parsed@, draws, now@),
            forall|i: int|
                0 <= i < k && has_id(
                    intake_of(parsed@, draws.take(i), now@).notes,
                    (#[trigger] file_notes(parsed@)[i]).id,
                ) ==> exists|v: u128| draws[i] == #[trigger] uuid_text(v),
        decreases parsed.len() - k,
    {
        let ghost before = acc@;
        let ghost drawn = draws;
        let candidate = if acc.notes.contains(parsed[k].note.id.as_str()) {
            new_note_id()
        } else {
            String::new()
        };
        accept_one(&mut acc, parsed, k, candidate.as_str(), now);
        proof {
            lemma_ids_so_far(before, parsed@, k as int, now@);
            lemma_accounted_next(before, acc@, parsed@, k as int, now@, candidate@);
            draws = drawn.push(candidate@);
            assert(draws.drop_last() =~= drawn);
            assert forall|i: int|
                0 <= i < k + 1 && has_id(
                    intake_of(parsed@, draws.take(i), now@).notes,
                    (#[trigger] file_notes(parsed@)[i]).id,
                ) implies exists|v: u128| draws[i] == #[trigger] uuid_text(v) by {
                if i < k {
                    assert(draws.take(i) =~= drawn.take(i));
                } else {
                    assert(draws.take(i) =~= drawn);
                }
            }
        }
        k += 1;
    }
    proof {
        reveal(drawn_for);
    }
    (acc, Ghost(draws))
}

/// What holds of the notes of the intake once their positions were
/// repaired at `now`.
#[verifier::opaque]
pub open spec fn loaded(a: Intake, fs: Seq<NoteFile>, now: Seq<char>) -> bool {
    let all = file_notes(fs);
    let names = file_names(fs);
    let after = repaired_notes(a.notes, now);
    &&& after.len() == a.notes.len()
    &&& distinct_ids(after)
    &&& forall|j: int|
        0 <= j < after.len() ==> stems_from(#[trigger] after[j], a.files[j], fs, fs.len() as int, now)
    &&& forall|k: int| 0 <= k < all.len() ==> has_id(after, (#[trigger] all[k]).id)
    &&& forall|k: int|
        0 <= k < all.len() && first_with_id(all, k) ==> held_in(
            after,
            a.files,
            #[trigger] all[k],
            names[k],
        )
    &&& forall|k: int|
        0 <= k < all.len() && first_with_id(all, k) && !contested(positions_of(all), k) ==> kept_in(
            after,
            a.files,
            #[trigger] all[k],
            names[k],
        ) && !displaced_note(a.notes)(all[k]) && !a.renamed.contains(all[k].id)
    &&& forall|j: int|
        0 <= j < after.len() && (a.renamed.contains((#[trigger] after[j]).id) || repair_displaces(
            positions_of(a.notes),
            j,
        )) ==> after[j].updated_at == now
    &&& forall|j: int| 0 <= j < a.renamed.len() ==> has_id(after, #[trigger] a.renamed[j])
}

/// The repair of the positions leaves the intake what it was but for the
/// positions of the notes that it displaces.
pub(crate) proof fn lemma_loaded(a: Intake, fs: Seq<NoteFile>, now: Seq<char>)
    requires
        taken_in(a, fs, fs.len() as int, now),
    ensures
        loaded(a, fs, now),
{
    reveal(taken_in);
    reveal(loaded);
    let all = file_notes(fs);
    let names = file_names(fs);
    let after = repaired_notes(a.notes, now);
    let len = fs.len() as int;
    assert(distinct_ids(after)) by {
        assert forall|i: int, j: int| 0 <= i < j < after.len() implies (#[trigger] after[i]).id != (
        #[trigger] after[j]).id by {
            assert(a.notes[i].id != a.notes[j].id);
        }
    }
    assert forall|j: int| 0 <= j < after.len() implies stems_from(
        #[trigger] after[j],
        a.files[j],
        fs,
        len,
        now,
    ) by {
        reveal(stems_from);
        assert(stems_from(a.notes[j], a.files[j], fs, len, now));
        let i = choose|i: int| 0 <= i < len && loaded_from(a.notes[j], a.files[j], #[trigger] fs[i], now);
        assert(loaded_from(after[j], a.files[j], fs[i], now));
    }
    assert forall|k: int| 0 <= k < all.len() implies has_id(after, (#[trigger] all[k]).id) by {
        assert(has_id(a.notes, all[k].id));
        let j = choose|j: int| 0 <= j < a.notes.len() && (#[trigger] a.notes[j]).id == all[k].id;
        assert(after[j].id == all[k].id);
    }
    assert forall|k: int| 0 <= k < all.len() && first_with_id(all, k) implies held_in(
        after,
        a.files,
        #[trigger] all[k],
        names[k],
    ) by {
        assert(kept_in(a.notes, a.files, all[k], names[k]));
        let j = choose|j: int|
            0 <= j < a.notes.len() && j < a.files.len() && #[trigger] a.notes[j] == all[k]
                && a.files[j] == names[k];
        assert(after[j].id == all[k].id && same_text(after[j], all[k]));
    }
    assert forall|k: int|
        0 <= k < all.len() && first_with_id(all, k) && !contested(
            positions_of(all),
            k,
        ) implies kept_in(after, a.files, #[trigger] all[k], names[k]) && !displaced_note(a.notes)(
        all[k],
    ) && !a.renamed.contains(all[k].id) by {
        assert(kept_in(a.notes, a.files, all[k], names[k]));
        let j = choose|j: int|
            0 <= j < a.notes.len() && j < a.files.len() && #[trigger] a.notes[j] == all[k]
                && a.files[j] == names[k];
        let ps = positions_of(all);
        assert(ps.take(len) =~= ps);
        assert(!contested(positions_of(a.notes), j)) by {
            if all[k].position is Some {
                let p = all[k].position->0;
                assert(claims(positions_of(a.notes), p) <= claims(ps.take(len), p));
            }
        }
        assert(after[j] == all[k]);
        if displaced_note(a.notes)(all[k]) {
            let i = choose|i: int|
                0 <= i < a.notes.len() && (#[trigger] a.notes[i]).id == all[k].id
                    && repair_displaces(positions_of(a.notes), i);
            assert(i == j);
        }
        if a.renamed.contains(all[k].id) {
            let r = choose|r: int| 0 <= r < a.renamed.len() && a.renamed[r] == all[k].id;
            assert(!has_id(all, a.renamed[r]));
        }
    }
    assert forall|j: int|
        0 <= j < after.len() && (a.renamed.contains((#[trigger] after[j]).id) || repair_displaces(
            positions_of(a.notes),
            j,
        )) implies after[j].updated_at == now by {
        if !repair_displaces(positions_of(a.notes), j) {
            reveal(stems_from);
            let r = choose|r: int| 0 <= r < a.renamed.len() && a.renamed[r] == after[j].id;
            assert(!has_id(all, a.renamed[r]));
            assert(stems_from(a.notes[j], a.files[j], fs, len, now));
            let i = choose|i: int|
                0 <= i < len && loaded_from(a.notes[j], a.files[j], #[trigger] fs[i], now);
            assert(all[i].id == fs[i].note@.id);
        }
    }
    assert forall|j: int| 0 <= j < a.renamed.len() implies has_id(after, #[trigger] a.renamed[j]) by {
        assert(has_id(a.notes, a.renamed[j]));
        let i = choose|i: int| 0 <= i < a.notes.len() && (#[trigger] a.notes[i]).id == a.renamed[j];
        assert(after[i].id == a.renamed[j]);
    }
}

/// Where no two files have one id, every note is taken in as it is.
pub(crate) proof fn lemma_intake_exact(a: Intake, fs: Seq<NoteFile>, now: Seq<char>)
    requires
        taken_in(a, fs, fs.len() as int, now),
        distinct_ids(file_notes(fs)),
    ensures
        a.notes == file_notes(fs),
        a.files == file_names(fs),
        a.renamed.len() == 0,
        a.rejected.len() == 0,
{
    reveal(taken_in);
    assert(file_notes(fs).take(fs.len() as int) =~= file_notes(fs));
    assert(file_names(fs).take(fs.len() as int) =~= file_names(fs));
}

/// What the notes are after the repair, for the files they came from.
pub(crate) proof fn lemma_loaded_notes(a: Intake, fs: Seq<NoteFile>, now: Seq<char>)
    requires
        loaded(a, fs, now),
    ensures
        repaired_notes(a.notes, now).len() == a.notes.len(),
        forall|j: int|
            0 <= j < a.notes.len() ==> stems_from(
                #[trigger] repaired_notes(a.notes, now)[j],
                a.files[j],
                fs,
                fs.len() as int,
                now,
            ),
        forall|k: int|
            0 <= k < fs.len() ==> has_id(
                repaired_notes(a.notes, now),
                (#[trigger] file_notes(fs)[k]).id,
            ),
        forall|k: int|
            0 <= k < fs.len() && first_with_id(file_notes(fs), k) ==> held_in(
                repaired_notes(a.notes, now),
                a.files,
                #[trigger] file_notes(fs)[k],
                file_names(fs)[k],
            ),
        forall|k: int|
            0 <= k < fs.len() && first_with_id(file_notes(fs), k) && !contested(
                positions_of(file_notes(fs)),
                k,
            ) ==> kept_in(
                repaired_notes(a.notes, now),
                a.files,
                #[trigger] file_notes(fs)[k],
                file_names(fs)[k],
            ),
        forall|j: int|
            0 <= j < a.renamed.len() ==> has_id(
                repaired_notes(a.notes, now),
                #[trigger] a.renamed[j],
            ),
{
    reveal(loaded);
}

/// Every file was left out or gave a note that the repair left with the
/// text of the file, and with its position where the claim of the file
/// stands.
pub(crate) proof fn lemma_every_file(a: Intake, fs: Seq<NoteFile>, now: Seq<char>)
    requires
        taken_in(a, fs, fs.len() as int, now),
        accounted(a, fs, fs.len() as int, now),
    ensures
        forall|k: int|
            0 <= k < fs.len() ==> a.rejected.contains((#[trigger] fs[k]).note@) || made_of(
                repaired_notes(a.notes, now),
                a.files,
                fs[k],
                now,
                first_with_id(file_notes(fs), k),
                !contested(positions_of(file_notes(fs)), k),
            ),
{
    let all = file_notes(fs);
    let ps = positions_of(all);
    let after = repaired_notes(a.notes, now);
    let len = fs.len() as int;
    assert forall|k: int| 0 <= k < fs.len() implies a.rejected.contains((#[trigger] fs[k]).note@)
        || made_of(after, a.files, fs[k], now, first_with_id(all, k), !contested(ps, k)) by {
        if !a.rejected.contains(fs[k].note@) {
            let j = choose|j: int|
                0 <= j < a.notes.len() && j < a.files.len() && loaded_from(
                    #[trigger] a.notes[j],
                    a.files[j],
                    fs[k],
                    now,
                ) && (a.notes[j].id == fs[k].note@.id) == first_with_id(all, k)
                    && a.notes[j].position == fs[k].note@.position;
            assert(after[j].id == a.notes[j].id);
            assert(loaded_from(after[j], a.files[j], fs[k], now));
            if !contested(ps, k) {
                assert(!contested(positions_of(a.notes), j)) by {
                    lemma_intake_parts(a, fs, len, now);
                    assert(ps.take(len) =~= ps);
                    if all[k].position is Some {
                        let p = all[k].position->0;
                        assert(claims(positions_of(a.notes), p) <= claims(ps.take(len), p));
                    }
                }
                assert(after[j].position == fs[k].note@.position);
            }
        }
    }
}

} // verus!
