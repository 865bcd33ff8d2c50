use vstd::prelude::*;

use std::collections::HashMap;

use crate::checksum::crc_of;
use crate::checksum::path_crc;
use crate::filter::Filter;

verus! {

broadcast use vstd::std_specs::hash::group_hash_axioms;

/// One manifest entry: a relative path with its declared size and content
/// hash (the hash is carried along for reporting; it is never checked here).
pub struct ManifestEntry {
    pub path: String,
    pub filesize: u32,
    pub hash: u128,
}

/// The loaded pack index: the ordered list of archive paths, and the map
/// from a path checksum to the ordinal of the archive holding that content.
pub struct PackIndex {
    pub archives: Vec<String>,
    pub files: HashMap<u32, u32>,
}

impl PackIndex {
    /// Every archive ordinal stored in the map refers into `archives`.
    pub open spec fn wf(&self) -> bool {
        forall|k: u32|
            #[trigger] self.files@.contains_key(k) ==> (self.files@[k] as int)
                < self.archives@.len()
    }
}

/// One extraction request: the checksum a file is stored under, its relative
/// path, and its declared size and hash.
pub struct Request {
    pub crc: u32,
    pub path: String,
    pub filesize: u32,
    pub hash: u128,
}

/// The requests destined for one archive, keyed by the archive's path as the
/// index writes it.
pub struct ArchiveBatch {
    pub pk_key: String,
    pub files: Vec<Request>,
}

/// The mathematical content of a request.
pub open spec fn req_view(r: Request) -> (u32, Seq<char>, u32, u128) {
    (r.crc, r.path@, r.filesize, r.hash)
}

/// The request that a manifest entry gives rise to.
pub open spec fn entry_req(e: ManifestEntry) -> (u32, Seq<char>, u32, u128) {
    (crc_of(e.path@), e.path@, e.filesize, e.hash)
}

/// The contents of a request list.
pub open spec fn reqs_view(v: Seq<Request>) -> Seq<(u32, Seq<char>, u32, u128)> {
    v.map_values(|r: Request| req_view(r))
}

/// Whether a manifest entry survives the filter and is stored in some known
/// archive.
pub open spec fn selected(e: ManifestEntry, f: Filter, ix: PackIndex) -> bool {
    f.spec_matches(e.path@) && ix.files@.contains_key(crc_of(e.path@))
}

/// The path of the archive that the index assigns to a selected entry.
pub open spec fn archive_key_of(e: ManifestEntry, ix: PackIndex) -> Seq<char> {
    ix.archives@[ix.files@[crc_of(e.path@)] as int]@
}

/// The requests, in manifest order, that the plan assigns to the archive
/// keyed `key`.
pub open spec fn batch_files(
    man: Seq<ManifestEntry>,
    f: Filter,
    ix: PackIndex,
    key: Seq<char>,
) -> Seq<(u32, Seq<char>, u32, u128)>
    decreases man.len(),
{
    if man.len() == 0 {
        Seq::empty()
    } else {
        let rest = batch_files(man.drop_last(), f, ix, key);
        let e = man.last();
        if selected(e, f, ix) && archive_key_of(e, ix) == key {
            rest.push(entry_req(e))
        } else {
            rest
        }
    }
}

// ---------------------------------------------------------------------------
// Lexicographic order on path strings, used to keep the batches in a stable,
// reproducible order.
// ---------------------------------------------------------------------------

/// Strict lexicographic order on character sequences, by code point.
pub open spec fn str_lt(a: Seq<char>, b: Seq<char>) -> bool
    decreases a.len(),
{
    if b.len() == 0 {
        false
    } else if a.len() == 0 {
        true
    } else if a[0] != b[0] {
        (a[0] as u32) < (b[0] as u32)
    } else {
        str_lt(a.skip(1), b.skip(1))
    }
}

/// No string is lexicographically below itself.
pub proof fn lemma_str_lt_irrefl(a: Seq<char>)
    ensures
        !str_lt(a, a),
    decreases a.len(),
{
    if a.len() > 0 {
        lemma_str_lt_irrefl(a.skip(1));
    }
}

/// Lexicographic order is transitive.
pub proof fn lemma_str_lt_trans(a: Seq<char>, b: Seq<char>, c: Seq<char>)
    requires
        str_lt(a, b),
        str_lt(b, c),
    ensures
        str_lt(a, c),
    decreases a.len(),
{
    if a.len() > 0 && b.len() > 0 && c.len() > 0 && a[0] == b[0] && b[0] == c[0] {
        lemma_str_lt_trans(a.skip(1), b.skip(1), c.skip(1));
    }
}

/// Any two strings are ordered one way or the other, or are equal.
pub proof fn lemma_str_lt_total(a: Seq<char>, b: Seq<char>)
    ensures
        str_lt(a, b) || str_lt(b, a) || a == b,
    decreases a.len(),
{
    if b.len() == 0 {
        if a.len() == 0 {
            assert(a =~= b);
        } else {
            assert(str_lt(b, a));
        }
    } else if a.len() == 0 {
        assert(str_lt(a, b));
    } else if a[0] != b[0] {
        if (a[0] as u32) < (b[0] as u32) {
            assert(str_lt(a, b));
        } else {
            vstd::utf8::char_u32_cast(a[0], a[0] as u32);
            vstd::utf8::char_u32_cast(b[0], b[0] as u32);
            assert((b[0] as u32) < (a[0] as u32));
            assert(str_lt(b, a));
        }
    } else if a.len() > 0 && b.len() > 0 && a[0] == b[0] {
        lemma_str_lt_total(a.skip(1), b.skip(1));
        if !str_lt(a, b) && !str_lt(b, a) {
            assert(a.skip(1) == b.skip(1));
            assert(a.skip(1).len() == b.skip(1).len());
            assert forall|i: int| 0 <= i < a.len() implies a[i] == b[i] by {
                if i > 0 {
                    assert(a[i] == a.skip(1)[i - 1]);
                    assert(b[i] == b.skip(1)[i - 1]);
                }
            }
            assert(a =~= b);
        }
    }
}

/// Decide the lexicographic order of two path strings.
pub fn str_less(a: &str, b: &str) -> (r: bool)
    ensures
        r == str_lt(a@, b@),
    decreases b@.len(),
{
    let bl = b.unicode_len();
    if bl == 0 {
        return false;
    }
    let al = a.unicode_len();
    if al == 0 {
        return true;
    }
    let ca = a.get_char(0);
    let cb = b.get_char(0);
    if ca != cb {
        return (ca as u32) < (cb as u32);
    }
    let a1 = a.substring_char(1, al);
    let b1 = b.substring_char(1, bl);
    proof {
        assert(a1@ =~= a@.skip(1));
        assert(b1@ =~= b@.skip(1));
    }
    str_less(a1, b1)
}

// ---------------------------------------------------------------------------
// The planner.
// ---------------------------------------------------------------------------

/// The batch keys are strictly ascending, hence distinct.
pub open spec fn sorted_batches(s: Seq<ArchiveBatch>) -> bool {
    forall|bi: int, bj: int|
        0 <= bi < bj < s.len() ==> str_lt(#[trigger] s[bi].pk_key@, #[trigger] s[bj].pk_key@)
}

/// Some batch carries the given archive key.
pub open spec fn key_present(s: Seq<ArchiveBatch>, key: Seq<char>) -> bool {
    exists|bi: int| 0 <= bi < s.len() && (#[trigger] s[bi].pk_key@) == key
}

/// Everything the plan promises: each batch holds exactly the requests of the
/// manifest entries resolved to its archive, in manifest order; no batch is
/// empty; the batches are strictly ordered by archive key; and every archive
/// that any selected entry resolves to has its batch.
pub open spec fn plan_post(
    man: Seq<ManifestEntry>,
    f: Filter,
    ix: PackIndex,
    r: Seq<ArchiveBatch>,
) -> bool {
    &&& forall|bi: int|
        0 <= bi < r.len() ==> reqs_view((#[trigger] r[bi]).files@) == batch_files(
            man,
            f,
            ix,
            r[bi].pk_key@,
        )
    &&& forall|bi: int| 0 <= bi < r.len() ==> (#[trigger] r[bi]).files@.len() > 0
    &&& sorted_batches(r)
    &&& forall|key: Seq<char>|
        #[trigger] batch_files(man, f, ix, key).len() > 0 ==> key_present(r, key)
}

/// Unfolding `batch_files` one manifest entry at a time.
proof fn lemma_batch_files_step(
    man: Seq<ManifestEntry>,
    f: Filter,
    ix: PackIndex,
    n: int,
    key: Seq<char>,
)
    requires
        0 <= n < man.len(),
    ensures
        selected(man[n], f, ix) && archive_key_of(man[n], ix) == key ==> batch_files(
            man.take(n + 1),
            f,
            ix,
            key,
        ) == batch_files(man.take(n), f, ix, key).push(entry_req(man[n])),
        !(selected(man[n], f, ix) && archive_key_of(man[n], ix) == key) ==> batch_files(
            man.take(n + 1),
            f,
            ix,
            key,
        ) == batch_files(man.take(n), f, ix, key),
{
    assert(man.take(n + 1).drop_last() =~= man.take(n));
    assert(man.take(n + 1).last() == man[n]);
}

/// Where a new key belongs among the sorted batches: either its batch exists,
/// or the position where a batch for it must be inserted.
enum Slot {
    At(usize),
    InsertAt(usize),
}

/// Find the batch for `key`, or the insertion point that keeps the batch
/// list sorted.
fn find_slot(batches: &Vec<ArchiveBatch>, key: &String) -> (s: Slot)
    requires
        sorted_batches(batches@),
    ensures
        match s {
            Slot::At(bi) => bi < batches@.len() && batches@[bi as int].pk_key@ == key@,
            Slot::InsertAt(p) => {
                &&& p <= batches@.len()
                &&& forall|j: int| 0 <= j < p ==> str_lt(#[trigger] batches@[j].pk_key@, key@)
                &&& forall|j: int|
                    p <= j < batches@.len() ==> str_lt(key@, #[trigger] batches@[j].pk_key@)
            },
        },
{
    let mut p: usize = 0;
    while p < batches.len()
        invariant
            p <= batches.len(),
            sorted_batches(batches@),
            forall|j: int| 0 <= j < p ==> str_lt(#[trigger] batches@[j].pk_key@, key@),
        decreases batches.len() - p,
    {
        let bk: &String = &batches[p].pk_key;
        if bk.eq(key) {
            return Slot::At(p);
        }
        if !str_less(bk.as_str(), key.as_str()) {
            proof {
                lemma_str_lt_total(bk@, key@);
                assert(str_lt(key@, batches@[p as int].pk_key@));
                assert forall|j: int|
                    p <= j < batches@.len() implies str_lt(
                    key@,
                    #[trigger] batches@[j].pk_key@,
                ) by {
                    if j > p {
                        lemma_str_lt_trans(key@, batches@[p as int].pk_key@, batches@[j].pk_key@);
                    }
                }
            }
            return Slot::InsertAt(p);
        }
        p = p + 1;
    }
    Slot::InsertAt(p)
}

/// Join the manifest against the filter and the index: group every selected
/// entry's request under the archive that holds it. Batches come out keyed
/// and strictly ordered by archive path, each non-empty, each carrying its
/// requests in manifest order — so the whole plan is a pure function of its
/// inputs.
pub fn plan(manifest: &Vec<ManifestEntry>, filter: &Filter, index: &PackIndex) -> (batches: Vec<
    ArchiveBatch,
>)
    requires
        index.wf(),
    ensures
        plan_post(manifest@, *filter, *index, batches@),
{
    let ghost man = manifest@;
    let mut batches: Vec<ArchiveBatch> = Vec::new();
    let mut n: usize = 0;
    while n < manifest.len()
        invariant
            n <= manifest.len(),
            man == manifest@,
            index.wf(),
            sorted_batches(batches@),
            forall|bi: int|
                0 <= bi < batches@.len() ==> reqs_view((#[trigger] batches@[bi]).files@)
                    == batch_files(man.take(n as int), *filter, *index, batches@[bi].pk_key@),
            forall|bi: int| 0 <= bi < batches@.len() ==> (#[trigger] batches@[bi]).files@.len() > 0,
            forall|key: Seq<char>|
                #[trigger] batch_files(man.take(n as int), *filter, *index, key).len() > 0
                    ==> key_present(batches@, key),
        decreases manifest.len() - n,
    {
        let e = &manifest[n];
        let ghost prev = batches@;
        let matched = filter.matches(e.path.as_str());
        if matched {
            let crc = path_crc(e.path.as_str());
            match index.files.get(&crc) {
                Some(ord_ref) => {
                    let ord: u32 = *ord_ref;
                    proof {
                        assert(index.files@.contains_key(crc));
                        assert(selected(man[n as int], *filter, *index));
                        assert((index.files@[crc] as int) < index.archives@.len());
                    }
                    let key: &String = &index.archives[ord as usize];
                    let ghost k0 = archive_key_of(man[n as int], *index);
                    proof {
                        assert(k0 == key@);
                    }
                    let req = Request {
                        crc,
                        path: e.path.clone(),
                        filesize: e.filesize,
                        hash: e.hash,
                    };
                    proof {
                        assert(req_view(req) == entry_req(man[n as int]));
                    }
                    match find_slot(&batches, key) {
                        Slot::At(bi) => {
                            let mut b = batches.remove(bi);
                            b.files.push(req);
                            batches.insert(bi, b);
                            proof {
                                assert(batches@ =~= prev.update(bi as int, b));
                                lemma_plan_step_at(man, *filter, *index, n as int, prev, batches@, bi as int, req);
                            }
                        },
                        Slot::InsertAt(p) => {
                            let mut files: Vec<Request> = Vec::new();
                            files.push(req);
                            let nb = ArchiveBatch { pk_key: key.clone(), files };
                            batches.insert(p, nb);
                            proof {
                                assert(reqs_view(nb.files@) =~= Seq::<
                                    (u32, Seq<char>, u32, u128),
                                >::empty().push(entry_req(man[n as int])));
                                lemma_plan_step_insert(man, *filter, *index, n as int, prev, batches@, p as int, nb);
                            }
                        },
                    }
                },
                None => {
                    proof {
                        assert(!index.files@.contains_key(crc));
                        assert(!selected(man[n as int], *filter, *index));
                        lemma_plan_step_skip(man, *filter, *index, n as int, batches@);
                    }
                },
            }
        } else {
            proof {
                assert(!selected(man[n as int], *filter, *index));
                lemma_plan_step_skip(man, *filter, *index, n as int, batches@);
            }
        }
        n = n + 1;
    }
    proof {
        assert(man.take(man.len() as int) =~= man);
    }
    batches
}

/// The loop invariants carry over an entry that the plan skips.
proof fn lemma_plan_step_skip(
    man: Seq<ManifestEntry>,
    f: Filter,
    ix: PackIndex,
    n: int,
    cur: Seq<ArchiveBatch>,
)
    requires
        0 <= n < man.len(),
        !selected(man[n], f, ix),
    ensures
        forall|key: Seq<char>|
            #[trigger] batch_files(man.take(n + 1), f, ix, key) == batch_files(
                man.take(n),
                f,
                ix,
                key,
            ),
{
    assert forall|key: Seq<char>|
        #[trigger] batch_files(man.take(n + 1), f, ix, key) == batch_files(
        man.take(n),
        f,
        ix,
        key,
    ) by {
        lemma_batch_files_step(man, f, ix, n, key);
    }
}

/// The loop invariants carry over an entry appended to an existing batch.
proof fn lemma_plan_step_at(
    man: Seq<ManifestEntry>,
    f: Filter,
    ix: PackIndex,
    n: int,
    prev: Seq<ArchiveBatch>,
    cur: Seq<ArchiveBatch>,
    bi: int,
    req: Request,
)
    requires
        0 <= n < man.len(),
        selected(man[n], f, ix),
        req_view(req) == entry_req(man[n]),
        0 <= bi < prev.len(),
        prev[bi].pk_key@ == archive_key_of(man[n], ix),
        sorted_batches(prev),
        forall|b2: int|
            0 <= b2 < prev.len() ==> reqs_view((#[trigger] prev[b2]).files@) == batch_files(
                man.take(n),
                f,
                ix,
                prev[b2].pk_key@,
            ),
        forall|b2: int| 0 <= b2 < prev.len() ==> (#[trigger] prev[b2]).files@.len() > 0,
        forall|key: Seq<char>|
            #[trigger] batch_files(man.take(n), f, ix, key).len() > 0 ==> key_present(prev, key),
        cur == prev.update(bi, cur[bi]),
        cur[bi].pk_key@ == prev[bi].pk_key@,
        cur[bi].files@ == prev[bi].files@.push(req),
    ensures
        sorted_batches(cur),
        forall|b2: int|
            0 <= b2 < cur.len() ==> reqs_view((#[trigger] cur[b2]).files@) == batch_files(
                man.take(n + 1),
                f,
                ix,
                cur[b2].pk_key@,
            ),
        forall|b2: int| 0 <= b2 < cur.len() ==> (#[trigger] cur[b2]).files@.len() > 0,
        forall|key: Seq<char>|
            #[trigger] batch_files(man.take(n + 1), f, ix, key).len() > 0 ==> key_present(
                cur,
                key,
            ),
{
    let k0 = archive_key_of(man[n], ix);
    assert(cur.len() == prev.len());
    assert forall|b2: int| 0 <= b2 < cur.len() && b2 != bi implies cur[b2].pk_key@ != k0 by {
        lemma_str_lt_irrefl(k0);
        if b2 < bi {
            assert(str_lt(prev[b2].pk_key@, prev[bi].pk_key@));
        } else {
            assert(str_lt(prev[bi].pk_key@, prev[b2].pk_key@));
        }
    }
    assert forall|b2: int|
        0 <= b2 < cur.len() implies reqs_view((#[trigger] cur[b2]).files@) == batch_files(
        man.take(n + 1),
        f,
        ix,
        cur[b2].pk_key@,
    ) by {
        lemma_batch_files_step(man, f, ix, n, cur[b2].pk_key@);
        if b2 == bi {
            assert(reqs_view(cur[bi].files@) =~= reqs_view(prev[bi].files@).push(req_view(req)));
        } else {
            assert(cur[b2] == prev[b2]);
        }
    }
    assert forall|key: Seq<char>|
        #[trigger] batch_files(man.take(n + 1), f, ix, key).len() > 0 implies key_present(
        cur,
        key,
    ) by {
        lemma_batch_files_step(man, f, ix, n, key);
        if key == k0 {
            assert(cur[bi].pk_key@ == key);
        } else {
            assert(batch_files(man.take(n), f, ix, key).len() > 0);
            let j = choose|j: int| 0 <= j < prev.len() && (#[trigger] prev[j].pk_key@) == key;
            assert(cur[j].pk_key@ == key);
        }
    }
}

/// The loop invariants carry over an entry that opens a new batch.
proof fn lemma_plan_step_insert(
    man: Seq<ManifestEntry>,
    f: Filter,
    ix: PackIndex,
    n: int,
    prev: Seq<ArchiveBatch>,
    cur: Seq<ArchiveBatch>,
    p: int,
    nb: ArchiveBatch,
)
    requires
        0 <= n < man.len(),
        selected(man[n], f, ix),
        0 <= p <= prev.len(),
        nb.pk_key@ == archive_key_of(man[n], ix),
        reqs_view(nb.files@) == Seq::<(u32, Seq<char>, u32, u128)>::empty().push(
            entry_req(man[n]),
        ),
        nb.files@.len() == 1,
        sorted_batches(prev),
        forall|j: int| 0 <= j < p ==> str_lt(#[trigger] prev[j].pk_key@, nb.pk_key@),
        forall|j: int| p <= j < prev.len() ==> str_lt(nb.pk_key@, #[trigger] prev[j].pk_key@),
        forall|b2: int|
            0 <= b2 < prev.len() ==> reqs_view((#[trigger] prev[b2]).files@) == batch_files(
                man.take(n),
                f,
                ix,
                prev[b2].pk_key@,
            ),
        forall|b2: int| 0 <= b2 < prev.len() ==> (#[trigger] prev[b2]).files@.len() > 0,
        forall|key: Seq<char>|
            #[trigger] batch_files(man.take(n), f, ix, key).len() > 0 ==> key_present(prev, key),
        cur == prev.insert(p, nb),
    ensures
        sorted_batches(cur),
        forall|b2: int|
            0 <= b2 < cur.len() ==> reqs_view((#[trigger] cur[b2]).files@) == batch_files(
                man.take(n + 1),
                f,
                ix,
                cur[b2].pk_key@,
            ),
        forall|b2: int| 0 <= b2 < cur.len() ==> (#[trigger] cur[b2]).files@.len() > 0,
        forall|key: Seq<char>|
            #[trigger] batch_files(man.take(n + 1), f, ix, key).len() > 0 ==> key_present(
                cur,
                key,
            ),
{
    let k0 = archive_key_of(man[n], ix);
    assert(cur.len() == prev.len() + 1);
    assert forall|j: int| 0 <= j < cur.len() implies (#[trigger] cur[j]) == if j < p {
        prev[j]
    } else if j == p {
        nb
    } else {
        prev[j - 1]
    } by {}
    assert(sorted_batches(cur)) by {
        assert forall|bi: int, bj: int|
            0 <= bi < bj < cur.len() implies str_lt(
            #[trigger] cur[bi].pk_key@,
            #[trigger] cur[bj].pk_key@,
        ) by {}
    }
    // The new batch holds no stale contents: its key had no requests before.
    assert(batch_files(man.take(n), f, ix, k0).len() == 0) by {
        if batch_files(man.take(n), f, ix, k0).len() > 0 {
            let j = choose|j: int| 0 <= j < prev.len() && (#[trigger] prev[j].pk_key@) == k0;
            lemma_str_lt_irrefl(k0);
        }
    }
    assert forall|b2: int|
        0 <= b2 < cur.len() implies reqs_view((#[trigger] cur[b2]).files@) == batch_files(
        man.take(n + 1),
        f,
        ix,
        cur[b2].pk_key@,
    ) by {
        lemma_batch_files_step(man, f, ix, n, cur[b2].pk_key@);
        if b2 == p {
            assert(reqs_view(nb.files@) =~= batch_files(man.take(n), f, ix, k0).push(
                entry_req(man[n]),
            ));
        } else {
            let old_j = if b2 < p { b2 } else { b2 - 1 };
            assert(cur[b2] == prev[old_j]);
            assert(cur[b2].pk_key@ != k0) by {
                lemma_str_lt_irrefl(k0);
            }
        }
    }
    assert forall|key: Seq<char>|
        #[trigger] batch_files(man.take(n + 1), f, ix, key).len() > 0 implies key_present(
        cur,
        key,
    ) by {
        lemma_batch_files_step(man, f, ix, n, key);
        if key == k0 {
            assert(cur[p].pk_key@ == key);
        } else {
            assert(batch_files(man.take(n), f, ix, key).len() > 0);
            let j = choose|j: int| 0 <= j < prev.len() && (#[trigger] prev[j].pk_key@) == key;
            if j < p {
                assert(cur[j].pk_key@ == key);
            } else {
                assert(cur[j + 1].pk_key@ == key);
            }
        }
    }
}

} // verus!
