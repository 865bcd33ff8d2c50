use vstd::prelude::*;

use crate::plan::Request;

verus! {

// ---------------------------------------------------------------------------
// The entry directory of one archive, as the library models it.
// ---------------------------------------------------------------------------

/// One entry of an archive's entry directory: the checksum the payload is
/// stored under, and the flag word whose lowest bit marks compression.
pub struct DirEntry {
    pub crc: u32,
    pub is_compressed: u32,
}

/// The directory is ordered by checksum, ascending.
pub open spec fn sorted_by_crc(s: Seq<DirEntry>) -> bool {
    forall|i: int, j: int| 0 <= i < j < s.len() ==> (#[trigger] s[i].crc) <= (#[trigger] s[j].crc)
}

/// The directory is strictly ordered by checksum: each checksum occurs once.
pub open spec fn sorted_unique(s: Seq<DirEntry>) -> bool {
    forall|i: int, j: int| 0 <= i < j < s.len() ==> (#[trigger] s[i].crc) < (#[trigger] s[j].crc)
}

/// Some entry carries the checksum.
pub open spec fn found_in(s: Seq<DirEntry>, crc: u32) -> bool {
    exists|i: int| 0 <= i < s.len() && (#[trigger] s[i].crc) == crc
}

/// Whether the entry stored under `crc` has its compression bit set
/// (meaningful when the directory holds `crc` exactly once).
pub open spec fn crc_compressed(s: Seq<DirEntry>, crc: u32) -> bool {
    let i = choose|i: int| 0 <= i < s.len() && (#[trigger] s[i].crc) == crc;
    s[i].is_compressed & 1 == 1
}

/// Binary search of the entry directory by checksum. A hit always points at
/// an entry with the requested checksum. A miss is conclusive only when the
/// directory really is sorted, as the archive format guarantees; on an
/// unsorted directory a lookup may fail, but never errs or panics.
pub fn find_entry(entries: &Vec<DirEntry>, crc: u32) -> (r: Option<usize>)
    ensures
        match r {
            Some(i) => i < entries@.len() && entries@[i as int].crc == crc,
            None => sorted_by_crc(entries@) ==> !found_in(entries@, crc),
        },
{
    let mut lo: usize = 0;
    let mut hi: usize = entries.len();
    while lo < hi
        invariant
            lo <= hi <= entries@.len(),
            sorted_by_crc(entries@) ==> forall|i: int|
                0 <= i < entries@.len() && !(lo <= i < hi) ==> (#[trigger] entries@[i].crc)
                    != crc,
        decreases hi - lo,
    {
        let mid = lo + (hi - lo) / 2;
        let c = entries[mid].crc;
        if c == crc {
            return Some(mid);
        } else if c < crc {
            proof {
                if sorted_by_crc(entries@) {
                    assert forall|i: int|
                        0 <= i < entries@.len() && !(mid + 1 <= i < hi) implies (
                    #[trigger] entries@[i].crc) != crc by {
                        if lo <= i <= mid {
                            assert(entries@[i].crc <= entries@[mid as int].crc);
                        }
                    }
                }
            }
            lo = mid + 1;
        } else {
            proof {
                if sorted_by_crc(entries@) {
                    assert forall|i: int|
                        0 <= i < entries@.len() && !(lo <= i < mid) implies (
                    #[trigger] entries@[i].crc) != crc by {
                        if mid <= i < hi {
                            assert(entries@[mid as int].crc <= entries@[i].crc);
                        }
                    }
                }
            }
            hi = mid;
        }
    }
    None
}

// ---------------------------------------------------------------------------
// Path strings.
// ---------------------------------------------------------------------------

/// The leading piece of an archive key that the logs drop for brevity.
pub open spec fn pack_prefix() -> Seq<char> {
    "client\\res\\pack\\"@
}

/// An archive key shortened for display: the well-known pack directory
/// prefix is dropped when present.
pub open spec fn spec_short_key(key: Seq<char>) -> Seq<char> {
    if key.len() >= 16 && key.take(16) == pack_prefix() {
        key.skip(16)
    } else {
        key
    }
}

/// Character-for-character string equality.
fn str_eq(a: &str, b: &str) -> (r: bool)
    ensures
        r == (a@ == b@),
{
    let al = a.unicode_len();
    let bl = b.unicode_len();
    if al != bl {
        proof {
            if a@ == b@ {
                assert(a@.len() == b@.len());
            }
        }
        return false;
    }
    let mut i: usize = 0;
    while i < al
        invariant
            i <= al,
            al == a@.len(),
            al == b@.len(),
            forall|j: int| 0 <= j < i ==> a@[j] == b@[j],
        decreases al - i,
    {
        if a.get_char(i) != b.get_char(i) {
            return false;
        }
        i = i + 1;
    }
    proof {
        assert(a@ =~= b@);
    }
    true
}

/// Shorten an archive key for display, as `spec_short_key` says.
pub fn short_key(pk_key: &str) -> (r: String)
    ensures
        r@ == spec_short_key(pk_key@),
{
    proof {
        reveal_strlit("client\\res\\pack\\");
    }
    let len = pk_key.unicode_len();
    if len >= 16 {
        let pre = pk_key.substring_char(0, 16);
        proof {
            assert(pre@ =~= pk_key@.take(16));
        }
        if str_eq(pre, "client\\res\\pack\\") {
            let rest = pk_key.substring_char(16, len);
            proof {
                assert(rest@ =~= pk_key@.skip(16));
            }
            return rest.to_owned();
        }
    }
    pk_key.to_owned()
}

/// Destination paths are the output root, a separator, and the entry's
/// relative path.
pub open spec fn spec_join(root: Seq<char>, rel: Seq<char>) -> Seq<char> {
    root + seq!['/'] + rel
}

/// Join the output root with a relative path.
pub fn join_dest(output_root: &str, rel: &str) -> (r: String)
    ensures
        r@ == spec_join(output_root@, rel@),
{
    proof {
        reveal_strlit("/");
    }
    let mut s = output_root.to_owned();
    s.append("/");
    s.append(rel);
    proof {
        assert(s@ =~= spec_join(output_root@, rel@));
    }
    s
}

/// The index writes archive keys with backslashes; on disk they are slash
/// separated.
pub open spec fn replace_backslashes(s: Seq<char>) -> Seq<char> {
    s.map_values(|c: char| if c == '\\' { '/' } else { c })
}

/// Where an archive keyed `pk_key` lives on disk: under the input root, at
/// the key's path with its backslashes turned into slashes.
pub fn archive_location(input_root: &str, pk_key: &str) -> (r: String)
    ensures
        r@ == spec_join(input_root@, replace_backslashes(pk_key@)),
{
    proof {
        reveal_strlit("/");
    }
    let mut s = input_root.to_owned();
    s.append("/");
    let len = pk_key.unicode_len();
    let ghost base = s@;
    let mut i: usize = 0;
    while i < len
        invariant
            i <= len,
            len == pk_key@.len(),
            s@ == base + replace_backslashes(pk_key@.take(i as int)),
        decreases len - i,
    {
        let c = pk_key.get_char(i);
        if c == '\\' {
            proof {
                reveal_strlit("/");
            }
            s.append("/");
        } else {
            let piece = pk_key.substring_char(i, i + 1);
            proof {
                assert(piece@ =~= pk_key@.subrange(i as int, i + 1 as int));
            }
            s.append(piece);
        }
        proof {
            assert(replace_backslashes(pk_key@.take(i + 1 as int)) =~= replace_backslashes(
                pk_key@.take(i as int),
            ).push(if pk_key@[i as int] == '\\' { '/' } else { pk_key@[i as int] }));
            assert(s@ =~= base + replace_backslashes(pk_key@.take(i + 1 as int)));
        }
        i = i + 1;
    }
    proof {
        assert(pk_key@.take(len as int) =~= pk_key@);
        assert(s@ =~= spec_join(input_root@, replace_backslashes(pk_key@)));
    }
    s
}

// ---------------------------------------------------------------------------
// What one archive run decides: log events and file actions.
// ---------------------------------------------------------------------------

/// A structured diagnostic that the caller renders to its log, in order.
pub enum LogEvent {
    /// The archive file could not be opened; its whole batch is skipped.
    WarnOpenFailed { short_key: String },
    /// The archive's magic signature did not check out; parsing continues.
    ErrorBadMagic { short_key: String },
    /// A requested checksum is absent from this archive's directory.
    WarnMissing { path: String, short_key: String },
    /// The batch finished: its ordinal out of the total, and the archive.
    InfoProgress { current: usize, total: usize, short_key: String },
}

/// A file output the caller must perform, in order.
pub enum Action {
    /// Dry run: report this destination path instead of writing anything.
    Report { dest: String },
    /// Stream the payload of the directory entry at `entry_index` to `dest`.
    Write { entry_index: usize, crc: u32, dest: String, compressed: bool },
}

/// The mathematical content of a log event.
pub enum EventV {
    WarnOpen(Seq<char>),
    BadMagic(Seq<char>),
    Missing(Seq<char>, Seq<char>),
    Progress(int, int, Seq<char>),
}

/// The mathematical content of an action.
pub enum ActionV {
    Report(Seq<char>),
    Write(u32, Seq<char>, bool),
}

pub open spec fn event_v(e: LogEvent) -> EventV {
    match e {
        LogEvent::WarnOpenFailed { short_key } => EventV::WarnOpen(short_key@),
        LogEvent::ErrorBadMagic { short_key } => EventV::BadMagic(short_key@),
        LogEvent::WarnMissing { path, short_key } => EventV::Missing(path@, short_key@),
        LogEvent::InfoProgress { current, total, short_key } => EventV::Progress(
            current as int,
            total as int,
            short_key@,
        ),
    }
}

pub open spec fn events_v(s: Seq<LogEvent>) -> Seq<EventV> {
    s.map_values(|e: LogEvent| event_v(e))
}

pub open spec fn action_v(a: Action) -> ActionV {
    match a {
        Action::Report { dest } => ActionV::Report(dest@),
        Action::Write { entry_index, crc, dest, compressed } => ActionV::Write(
            crc,
            dest@,
            compressed,
        ),
    }
}

pub open spec fn actions_v(s: Seq<Action>) -> Seq<ActionV> {
    s.map_values(|a: Action| action_v(a))
}

/// The missing-entry warnings a batch gives rise to, in request order.
pub open spec fn spec_misses(files: Seq<Request>, entries: Seq<DirEntry>, sk: Seq<char>) -> Seq<
    EventV,
>
    decreases files.len(),
{
    if files.len() == 0 {
        Seq::empty()
    } else {
        let rest = spec_misses(files.drop_last(), entries, sk);
        let q = files.last();
        if found_in(entries, q.crc) {
            rest
        } else {
            rest.push(EventV::Missing(q.path@, sk))
        }
    }
}

/// The file actions a batch gives rise to, in request order.
pub open spec fn spec_actions(
    files: Seq<Request>,
    entries: Seq<DirEntry>,
    dry_run: bool,
    out: Seq<char>,
) -> Seq<ActionV>
    decreases files.len(),
{
    if files.len() == 0 {
        Seq::empty()
    } else {
        let rest = spec_actions(files.drop_last(), entries, dry_run, out);
        let q = files.last();
        if found_in(entries, q.crc) {
            if dry_run {
                rest.push(ActionV::Report(spec_join(out, q.path@)))
            } else {
                rest.push(
                    ActionV::Write(q.crc, spec_join(out, q.path@), crc_compressed(entries, q.crc)),
                )
            }
        } else {
            rest
        }
    }
}

/// What the caller found when it opened and read one archive file.
pub enum ArchiveAccess {
    /// The archive file could not be opened at all.
    Unopenable,
    /// The file opened, but its trailer or entry directory could not be read.
    HeaderError { magic_ok: bool },
    /// The entry directory was read; `magic_ok` tells whether the magic
    /// signature checked out.
    Opened { magic_ok: bool, entries: Vec<DirEntry> },
}

/// The decisions for one archive batch: diagnostics to log, file outputs to
/// perform, and whether the archive counts as failed for the driver.
pub struct ArchivePlan {
    pub events: Vec<LogEvent>,
    pub actions: Vec<Action>,
    pub failed: bool,
}

/// The magic-signature diagnostic, present when the check failed.
pub open spec fn magic_head(magic_ok: bool, sk: Seq<char>) -> Seq<EventV> {
    if magic_ok {
        Seq::empty()
    } else {
        seq![EventV::BadMagic(sk)]
    }
}

pub open spec fn access_magic_ok(a: ArchiveAccess) -> bool {
    match a {
        ArchiveAccess::Unopenable => true,
        ArchiveAccess::HeaderError { magic_ok } => magic_ok,
        ArchiveAccess::Opened { magic_ok, .. } => magic_ok,
    }
}

pub open spec fn access_entries(a: ArchiveAccess) -> Seq<DirEntry> {
    match a {
        ArchiveAccess::Opened { entries, .. } => entries@,
        _ => Seq::empty(),
    }
}

/// Unfolding `spec_misses` and `spec_actions` one request at a time.
proof fn lemma_request_step(
    files: Seq<Request>,
    entries: Seq<DirEntry>,
    sk: Seq<char>,
    dry_run: bool,
    out: Seq<char>,
    k: int,
)
    requires
        0 <= k < files.len(),
    ensures
        spec_misses(files.take(k + 1), entries, sk) == if found_in(entries, files[k].crc) {
            spec_misses(files.take(k), entries, sk)
        } else {
            spec_misses(files.take(k), entries, sk).push(EventV::Missing(files[k].path@, sk))
        },
        spec_actions(files.take(k + 1), entries, dry_run, out) == if !found_in(
            entries,
            files[k].crc,
        ) {
            spec_actions(files.take(k), entries, dry_run, out)
        } else if dry_run {
            spec_actions(files.take(k), entries, dry_run, out).push(
                ActionV::Report(spec_join(out, files[k].path@)),
            )
        } else {
            spec_actions(files.take(k), entries, dry_run, out).push(
                ActionV::Write(
                    files[k].crc,
                    spec_join(out, files[k].path@),
                    crc_compressed(entries, files[k].crc),
                ),
            )
        },
{
    assert(files.take(k + 1).drop_last() =~= files.take(k));
    assert(files.take(k + 1).last() == files[k]);
}

/// Decide everything for one archive batch. The caller reports what its
/// attempt to open and read the archive yielded; this function returns the
/// diagnostics and the file outputs, and never aborts the run:
/// an unopenable archive yields exactly one warning and no outputs, a failed
/// header read yields no outputs and marks the batch failed, and a missing
/// entry yields one warning while the remaining requests still proceed. In
/// dry-run mode every action is a report; otherwise every action is a write.
pub fn run_archive(
    current: usize,
    total: usize,
    pk_key: &str,
    files: &Vec<Request>,
    access: ArchiveAccess,
    dry_run: bool,
    output_root: &str,
) -> (r: ArchivePlan)
    ensures
        r.failed == (access is HeaderError),
        access is Unopenable ==> events_v(r.events@) == seq![
            EventV::WarnOpen(spec_short_key(pk_key@)),
        ] && r.actions@.len() == 0,
        access is HeaderError ==> events_v(r.events@) == magic_head(
            access_magic_ok(access),
            spec_short_key(pk_key@),
        ) && r.actions@.len() == 0,
        access is Opened && sorted_unique(access_entries(access)) ==> events_v(r.events@)
            == magic_head(access_magic_ok(access), spec_short_key(pk_key@)) + spec_misses(
            files@,
            access_entries(access),
            spec_short_key(pk_key@),
        ) + seq![EventV::Progress(current as int, total as int, spec_short_key(pk_key@))],
        access is Opened && sorted_unique(access_entries(access)) ==> actions_v(r.actions@)
            == spec_actions(files@, access_entries(access), dry_run, output_root@),
        dry_run ==> forall|k: int| 0 <= k < r.actions@.len() ==> (#[trigger] r.actions@[k])
            is Report,
        !dry_run ==> forall|k: int| 0 <= k < r.actions@.len() ==> (#[trigger] r.actions@[k])
            is Write,
        forall|k: int|
            0 <= k < r.actions@.len() && (#[trigger] r.actions@[k]) is Write ==> {
                let a = r.actions@[k];
                &&& (a->Write_entry_index as int) < access_entries(access).len()
                &&& access_entries(access)[a->Write_entry_index as int].crc == a->Write_crc
            },
{
    let sk = short_key(pk_key);
    let mut events: Vec<LogEvent> = Vec::new();
    let mut actions: Vec<Action> = Vec::new();
    match access {
        ArchiveAccess::Unopenable => {
            events.push(LogEvent::WarnOpenFailed { short_key: sk });
            proof {
                assert(events_v(events@) =~= seq![EventV::WarnOpen(spec_short_key(pk_key@))]);
            }
            ArchivePlan { events, actions, failed: false }
        },
        ArchiveAccess::HeaderError { magic_ok } => {
            if !magic_ok {
                events.push(LogEvent::ErrorBadMagic { short_key: sk });
            }
            proof {
                assert(events_v(events@) =~= magic_head(magic_ok, spec_short_key(pk_key@)));
            }
            ArchivePlan { events, actions, failed: true }
        },
        ArchiveAccess::Opened { magic_ok, entries } => {
            let ghost sk0 = spec_short_key(pk_key@);
            let ghost head = magic_head(magic_ok, sk0);
            if !magic_ok {
                events.push(LogEvent::ErrorBadMagic { short_key: sk.clone() });
            }
            proof {
                assert(events_v(events@) =~= head);
                assert(files@.take(0) =~= Seq::<Request>::empty());
            }
            let mut k: usize = 0;
            while k < files.len()
                invariant
                    k <= files.len(),
                    sk@ == sk0,
                    sorted_unique(entries@) ==> events_v(events@) == head + spec_misses(
                        files@.take(k as int),
                        entries@,
                        sk0,
                    ),
                    sorted_unique(entries@) ==> actions_v(actions@) == spec_actions(
                        files@.take(k as int),
                        entries@,
                        dry_run,
                        output_root@,
                    ),
                    dry_run ==> forall|j: int|
                        0 <= j < actions@.len() ==> (#[trigger] actions@[j]) is Report,
                    !dry_run ==> forall|j: int|
                        0 <= j < actions@.len() ==> (#[trigger] actions@[j]) is Write,
                    forall|j: int|
                        0 <= j < actions@.len() && (#[trigger] actions@[j]) is Write ==> {
                            let a = actions@[j];
                            &&& (a->Write_entry_index as int) < entries@.len()
                            &&& entries@[a->Write_entry_index as int].crc == a->Write_crc
                        },
                decreases files.len() - k,
            {
                let q = &files[k];
                let ghost prev_events = events@;
                let ghost prev_actions = actions@;
                match find_entry(&entries, q.crc) {
                    Some(i) => {
                        proof {
                            if sorted_unique(entries@) {
                                assert(found_in(entries@, q.crc));
                            }
                        }
                        let flag = entries[i].is_compressed;
                        let compressed = flag & 0x01 > 0;
                        proof {
                            assert((flag & 0x01 > 0) == (flag & 1 == 1)) by (bit_vector);
                        }
                        let dest = join_dest(output_root, q.path.as_str());
                        if dry_run {
                            actions.push(Action::Report { dest });
                        } else {
                            actions.push(
                                Action::Write { entry_index: i, crc: q.crc, dest, compressed },
                            );
                        }
                        proof {
                            lemma_request_step(
                                files@,
                                entries@,
                                sk0,
                                dry_run,
                                output_root@,
                                k as int,
                            );
                            if sorted_unique(entries@) {
                                if !dry_run {
                                    let ci = choose|ci: int|
                                        0 <= ci < entries@.len() && (#[trigger] entries@[ci].crc)
                                            == q.crc;
                                    assert(ci == i as int) by {
                                        if ci < i as int {
                                            assert(entries@[ci].crc < entries@[i as int].crc);
                                        } else if ci > i as int {
                                            assert(entries@[i as int].crc < entries@[ci].crc);
                                        }
                                    }
                                    assert(crc_compressed(entries@, q.crc) == compressed);
                                }
                                assert(actions_v(actions@) =~= actions_v(prev_actions).push(
                                    action_v(actions@[actions@.len() - 1]),
                                ));
                                assert(events_v(events@) == head + spec_misses(
                                    files@.take(k + 1),
                                    entries@,
                                    sk0,
                                ));
                            }
                        }
                    },
                    None => {
                        events.push(
                            LogEvent::WarnMissing { path: q.path.clone(), short_key: sk.clone() },
                        );
                        proof {
                            lemma_request_step(
                                files@,
                                entries@,
                                sk0,
                                dry_run,
                                output_root@,
                                k as int,
                            );
                            if sorted_unique(entries@) {
                                assert(sorted_by_crc(entries@));
                                assert(!found_in(entries@, q.crc));
                                assert(events_v(events@) =~= events_v(prev_events).push(
                                    EventV::Missing(q.path@, sk0),
                                ));
                            }
                        }
                    },
                }
                k = k + 1;
            }
            events.push(
                LogEvent::InfoProgress { current, total, short_key: sk },
            );
            proof {
                assert(files@.take(files@.len() as int) =~= files@);
                if sorted_unique(entries@) {
                    let ghost done = head + spec_misses(files@, entries@, sk0);
                    assert(events_v(events@) =~= done + seq![
                        EventV::Progress(current as int, total as int, sk0),
                    ]);
                }
            }
            ArchivePlan { events, actions, failed: false }
        },
    }
}

} // verus!
