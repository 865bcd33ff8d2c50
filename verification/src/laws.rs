use vstd::prelude::*;

use crate::archive::ActionV;
use crate::archive::DirEntry;
use crate::archive::crc_compressed;
use crate::archive::found_in;
use crate::archive::spec_actions;
use crate::archive::spec_join;
use crate::filter::Filter;
use crate::plan::ArchiveBatch;
use crate::plan::ManifestEntry;
use crate::plan::PackIndex;
use crate::plan::Request;
use crate::plan::archive_key_of;
use crate::plan::batch_files;
use crate::plan::entry_req;
use crate::plan::key_present;
use crate::plan::lemma_str_lt_irrefl;
use crate::plan::lemma_str_lt_trans;
use crate::plan::plan_post;
use crate::plan::reqs_view;
use crate::plan::selected;
use crate::plan::sorted_batches;

verus! {

/// Every planned request stems from some selected manifest entry that the
/// index resolved to this very archive.
pub proof fn lemma_batch_files_elem(
    man: Seq<ManifestEntry>,
    f: Filter,
    ix: PackIndex,
    key: Seq<char>,
    t: int,
)
    requires
        0 <= t < batch_files(man, f, ix, key).len(),
    ensures
        exists|m: int|
            0 <= m < man.len() && selected(#[trigger] man[m], f, ix) && archive_key_of(man[m], ix)
                == key && batch_files(man, f, ix, key)[t] == entry_req(man[m]),
    decreases man.len(),
{
    let b = batch_files(man, f, ix, key);
    let rest = batch_files(man.drop_last(), f, ix, key);
    if t < rest.len() {
        lemma_batch_files_elem(man.drop_last(), f, ix, key, t);
        let m = choose|m: int|
            0 <= m < man.drop_last().len() && selected(#[trigger] man.drop_last()[m], f, ix)
                && archive_key_of(man.drop_last()[m], ix) == key && batch_files(
                man.drop_last(),
                f,
                ix,
                key,
            )[t] == entry_req(man.drop_last()[m]);
        assert(man.drop_last()[m] == man[m]);
        assert(b[t] == rest[t]);
    } else {
        let m = man.len() - 1;
        assert(man.last() == man[m]);
        assert(selected(man[m], f, ix) && archive_key_of(man[m], ix) == key);
        assert(b[t] == entry_req(man[m]));
    }
}

/// Law: a path the filter rejects appears in no batch of the plan — a
/// filtered-out manifest entry gives rise to no extraction request at all.
pub proof fn lemma_filtered_out_absent(
    man: Seq<ManifestEntry>,
    f: Filter,
    ix: PackIndex,
    r: Seq<ArchiveBatch>,
    p: Seq<char>,
)
    requires
        plan_post(man, f, ix, r),
        !f.spec_matches(p),
    ensures
        forall|bi: int, t: int|
            0 <= bi < r.len() && 0 <= t < reqs_view(r[bi].files@).len() ==> (#[trigger] reqs_view(
                r[bi].files@,
            )[t]).1 != p,
{
    assert forall|bi: int, t: int|
        0 <= bi < r.len() && 0 <= t < reqs_view(r[bi].files@).len() implies (#[trigger] reqs_view(
        r[bi].files@,
    )[t]).1 != p by {
        lemma_batch_files_elem(man, f, ix, r[bi].pk_key@, t);
        let m = choose|m: int|
            0 <= m < man.len() && selected(#[trigger] man[m], f, ix) && archive_key_of(man[m], ix)
                == r[bi].pk_key@ && batch_files(man, f, ix, r[bi].pk_key@)[t] == entry_req(
                man[m],
            );
        assert(entry_req(man[m]).1 == man[m].path@);
        assert(f.spec_matches(man[m].path@));
    }
}

/// A selected manifest entry's request stands in the batch contents of its
/// archive key.
pub proof fn lemma_batch_files_contains(
    man: Seq<ManifestEntry>,
    f: Filter,
    ix: PackIndex,
    m: int,
)
    requires
        0 <= m < man.len(),
        selected(man[m], f, ix),
    ensures
        exists|t: int|
            0 <= t < batch_files(man, f, ix, archive_key_of(man[m], ix)).len() && batch_files(
                man,
                f,
                ix,
                archive_key_of(man[m], ix),
            )[t] == entry_req(man[m]),
    decreases man.len(),
{
    let key = archive_key_of(man[m], ix);
    let b = batch_files(man, f, ix, key);
    let rest = batch_files(man.drop_last(), f, ix, key);
    if m == man.len() - 1 {
        assert(man.last() == man[m]);
        assert(b == rest.push(entry_req(man[m])));
        assert(b[b.len() - 1] == entry_req(man[m]));
    } else {
        assert(man.drop_last()[m] == man[m]);
        lemma_batch_files_contains(man.drop_last(), f, ix, m);
        let t = choose|t: int|
            0 <= t < batch_files(man.drop_last(), f, ix, key).len() && batch_files(
                man.drop_last(),
                f,
                ix,
                key,
            )[t] == entry_req(man[m]);
        assert(b[t] == rest[t]);
    }
}

/// Law: every manifest entry that passes the filter and resolves in the
/// index has its request in the plan, in the batch of its own archive.
pub proof fn lemma_selected_entry_planned(
    man: Seq<ManifestEntry>,
    f: Filter,
    ix: PackIndex,
    r: Seq<ArchiveBatch>,
    m: int,
)
    requires
        plan_post(man, f, ix, r),
        0 <= m < man.len(),
        selected(man[m], f, ix),
    ensures
        exists|bi: int, t: int|
            0 <= bi < r.len() && r[bi].pk_key@ == archive_key_of(man[m], ix) && 0 <= t
                < reqs_view(r[bi].files@).len() && (#[trigger] reqs_view(r[bi].files@)[t])
                == entry_req(man[m]),
{
    let key = archive_key_of(man[m], ix);
    lemma_batch_files_contains(man, f, ix, m);
    assert(batch_files(man, f, ix, key).len() > 0);
    assert(key_present(r, key));
    let bi = choose|bi: int| 0 <= bi < r.len() && (#[trigger] r[bi].pk_key@) == key;
    assert(reqs_view(r[bi].files@) == batch_files(man, f, ix, key));
    let t = choose|t: int|
        0 <= t < batch_files(man, f, ix, key).len() && batch_files(man, f, ix, key)[t]
            == entry_req(man[m]);
    assert(r[bi].pk_key@ == key && 0 <= t < reqs_view(r[bi].files@).len() && reqs_view(
        r[bi].files@,
    )[t] == entry_req(man[m]));
}

/// Law: with dry-run off, a request whose checksum the entry directory holds
/// yields a write action for exactly the joined destination path.
pub proof fn lemma_found_request_written(
    files: Seq<Request>,
    entries: Seq<DirEntry>,
    out: Seq<char>,
    j: int,
)
    requires
        0 <= j < files.len(),
        found_in(entries, files[j].crc),
    ensures
        exists|t: int|
            0 <= t < spec_actions(files, entries, false, out).len() && spec_actions(
                files,
                entries,
                false,
                out,
            )[t] == ActionV::Write(
                files[j].crc,
                spec_join(out, files[j].path@),
                crc_compressed(entries, files[j].crc),
            ),
    decreases files.len(),
{
    let acts = spec_actions(files, entries, false, out);
    let rest = spec_actions(files.drop_last(), entries, false, out);
    if j == files.len() - 1 {
        assert(files.last() == files[j]);
        assert(acts[acts.len() - 1] == ActionV::Write(
            files[j].crc,
            spec_join(out, files[j].path@),
            crc_compressed(entries, files[j].crc),
        ));
    } else {
        assert(files.drop_last()[j] == files[j]);
        lemma_found_request_written(files.drop_last(), entries, out, j);
        let t = choose|t: int|
            0 <= t < spec_actions(files.drop_last(), entries, false, out).len() && spec_actions(
                files.drop_last(),
                entries,
                false,
                out,
            )[t] == ActionV::Write(
                files[j].crc,
                spec_join(out, files[j].path@),
                crc_compressed(entries, files[j].crc),
            );
        assert(acts[t] == rest[t]);
    }
}

/// Two sorted batch lists with the same per-key contents and the same keys
/// are the same list.
proof fn lemma_sorted_batches_equal(
    man: Seq<ManifestEntry>,
    f: Filter,
    ix: PackIndex,
    s1: Seq<ArchiveBatch>,
    s2: Seq<ArchiveBatch>,
)
    requires
        sorted_batches(s1),
        sorted_batches(s2),
        forall|bi: int|
            0 <= bi < s1.len() ==> reqs_view((#[trigger] s1[bi]).files@) == batch_files(
                man,
                f,
                ix,
                s1[bi].pk_key@,
            ),
        forall|bi: int|
            0 <= bi < s2.len() ==> reqs_view((#[trigger] s2[bi]).files@) == batch_files(
                man,
                f,
                ix,
                s2[bi].pk_key@,
            ),
        forall|bi: int| 0 <= bi < s1.len() ==> key_present(s2, (#[trigger] s1[bi]).pk_key@),
        forall|bi: int| 0 <= bi < s2.len() ==> key_present(s1, (#[trigger] s2[bi]).pk_key@),
    ensures
        s1.len() == s2.len(),
        forall|bi: int|
            0 <= bi < s1.len() ==> (#[trigger] s1[bi]).pk_key@ == s2[bi].pk_key@ && reqs_view(
                s1[bi].files@,
            ) == reqs_view(s2[bi].files@),
    decreases s1.len(),
{
    if s1.len() == 0 {
        if s2.len() > 0 {
            assert(key_present(s1, s2[0].pk_key@));
            let bi = choose|bi: int| 0 <= bi < s1.len() && (#[trigger] s1[bi].pk_key@) == s2[0].pk_key@;
            assert(false);
        }
    } else {
        assert(key_present(s2, s1[0].pk_key@));
        let j = choose|j: int| 0 <= j < s2.len() && (#[trigger] s2[j].pk_key@) == s1[0].pk_key@;
        assert(key_present(s1, s2[0].pk_key@));
        let i = choose|i: int| 0 <= i < s1.len() && (#[trigger] s1[i].pk_key@) == s2[0].pk_key@;
        if j > 0 {
            assert(crate::plan::str_lt(s2[0].pk_key@, s2[j].pk_key@));
            if i == 0 {
                lemma_str_lt_irrefl(s1[0].pk_key@);
                assert(false);
            } else {
                assert(crate::plan::str_lt(s1[0].pk_key@, s1[i].pk_key@));
                lemma_str_lt_trans(s1[0].pk_key@, s1[i].pk_key@, s2[j].pk_key@);
                lemma_str_lt_irrefl(s1[0].pk_key@);
                assert(false);
            }
        }
        assert(s1[0].pk_key@ == s2[0].pk_key@);
        let t1 = s1.skip(1);
        let t2 = s2.skip(1);
        assert forall|bi: int| 0 <= bi < t1.len() implies (#[trigger] t1[bi]) == s1[bi + 1] by {}
        assert forall|bi: int| 0 <= bi < t2.len() implies (#[trigger] t2[bi]) == s2[bi + 1] by {}
        assert forall|bi: int|
            0 <= bi < t1.len() implies key_present(t2, (#[trigger] t1[bi]).pk_key@) by {
            assert(key_present(s2, s1[bi + 1].pk_key@));
            let j2 = choose|j2: int|
                0 <= j2 < s2.len() && (#[trigger] s2[j2].pk_key@) == s1[bi + 1].pk_key@;
            if j2 == 0 {
                assert(s1[0].pk_key@ == s1[bi + 1].pk_key@);
                assert(crate::plan::str_lt(s1[0].pk_key@, s1[bi + 1].pk_key@));
                lemma_str_lt_irrefl(s1[0].pk_key@);
                assert(false);
            }
            assert(t2[j2 - 1].pk_key@ == t1[bi].pk_key@);
        }
        assert forall|bi: int|
            0 <= bi < t2.len() implies key_present(t1, (#[trigger] t2[bi]).pk_key@) by {
            assert(key_present(s1, s2[bi + 1].pk_key@));
            let i2 = choose|i2: int|
                0 <= i2 < s1.len() && (#[trigger] s1[i2].pk_key@) == s2[bi + 1].pk_key@;
            if i2 == 0 {
                assert(s2[0].pk_key@ == s2[bi + 1].pk_key@);
                assert(crate::plan::str_lt(s2[0].pk_key@, s2[bi + 1].pk_key@));
                lemma_str_lt_irrefl(s2[0].pk_key@);
                assert(false);
            }
            assert(t1[i2 - 1].pk_key@ == t2[bi].pk_key@);
        }
        lemma_sorted_batches_equal(man, f, ix, t1, t2);
        assert forall|bi: int|
            0 <= bi < s1.len() implies (#[trigger] s1[bi]).pk_key@ == s2[bi].pk_key@ && reqs_view(
            s1[bi].files@,
        ) == reqs_view(s2[bi].files@) by {
            if bi > 0 {
                assert(t1[bi - 1].pk_key@ == t2[bi - 1].pk_key@);
                assert(reqs_view(t1[bi - 1].files@) == reqs_view(t2[bi - 1].files@));
            }
        }
    }
}

/// Law: the plan is deterministic — any two batch lists that satisfy the
/// plan's contract on the same inputs agree batch for batch, in keys and in
/// contents. Archive processing order is therefore stable across runs with
/// identical inputs.
pub proof fn lemma_plan_deterministic(
    man: Seq<ManifestEntry>,
    f: Filter,
    ix: PackIndex,
    r1: Seq<ArchiveBatch>,
    r2: Seq<ArchiveBatch>,
)
    requires
        plan_post(man, f, ix, r1),
        plan_post(man, f, ix, r2),
    ensures
        r1.len() == r2.len(),
        forall|bi: int|
            0 <= bi < r1.len() ==> (#[trigger] r1[bi]).pk_key@ == r2[bi].pk_key@ && reqs_view(
                r1[bi].files@,
            ) == reqs_view(r2[bi].files@),
{
    assert forall|bi: int|
        0 <= bi < r1.len() implies key_present(r2, (#[trigger] r1[bi]).pk_key@) by {
        assert(reqs_view(r1[bi].files@) == batch_files(man, f, ix, r1[bi].pk_key@));
        assert(r1[bi].files@.len() > 0);
        assert(batch_files(man, f, ix, r1[bi].pk_key@).len() > 0);
    }
    assert forall|bi: int|
        0 <= bi < r2.len() implies key_present(r1, (#[trigger] r2[bi]).pk_key@) by {
        assert(reqs_view(r2[bi].files@) == batch_files(man, f, ix, r2[bi].pk_key@));
        assert(r2[bi].files@.len() > 0);
        assert(batch_files(man, f, ix, r2[bi].pk_key@).len() > 0);
    }
    lemma_sorted_batches_equal(man, f, ix, r1, r2);
}

} // verus!
