//! The replicated log: entries from `start_index` on; those before it were compacted into a
//! snapshot.
use vstd::prelude::*;
use vstd::string::*;
use crate::config;
use crate::config::Configuration;
use crate::proto::{copy_bytes, entries_view, EntryType, LogEntry, LogEntryView};

verus! {

/// Payload of an entry to append: its type and its bytes.
pub type LogEntryData = (EntryType, Vec<u8>);

/// Mathematical value of a log.
pub struct LogView {
    pub entries: Seq<LogEntryView>,
    pub start_index: u64,
    pub metadata_dir: Seq<char>,
}

/// The entry that stands for every index compacted into the snapshot.
pub open spec fn virtual_entry() -> LogEntryView {
    LogEntryView { index: 0, term: 0, entry_type: EntryType::Noop, data: Seq::empty() }
}

/// Position of the last configuration entry, or -1 when there is none.
pub open spec fn last_configuration_position(entries: Seq<LogEntryView>) -> int
    decreases entries.len(),
{
    if entries.len() == 0 {
        -1
    } else if entries.last().entry_type == EntryType::Configuration {
        entries.len() - 1
    } else {
        last_configuration_position(entries.drop_last())
    }
}

pub proof fn lemma_last_configuration_position(entries: Seq<LogEntryView>)
    ensures
        -1 <= last_configuration_position(entries) < entries.len(),
        last_configuration_position(entries) >= 0 ==> entries[last_configuration_position(
            entries,
        )].entry_type == EntryType::Configuration,
        forall|i: int|
            last_configuration_position(entries) < i < entries.len() ==> entries[i].entry_type
                != EntryType::Configuration,
    decreases entries.len(),
{
    if entries.len() > 0 && entries.last().entry_type != EntryType::Configuration {
        let p = entries.drop_last();
        lemma_last_configuration_position(p);
        assert forall|i: int|
            last_configuration_position(entries) < i < entries.len() implies entries[i].entry_type
                != EntryType::Configuration by {
            if i < entries.len() - 1 {
                assert(entries[i] == p[i]);
            }
        }
    }
}

/// The entries that `append_data` adds after `base`, all in `term`.
pub open spec fn data_entries(base: u64, term: u64, entry_data: Seq<LogEntryData>) -> Seq<LogEntryView> {
    Seq::new(
        entry_data.len(),
        |k: int|
            LogEntryView {
                index: (base + 1 + k) as u64,
                term,
                entry_type: entry_data[k].0,
                data: entry_data[k].1@,
            },
    )
}

impl LogView {
    /// The index of the last entry; `last_included_index` when the log holds no entry
    /// because of a snapshot, else the index before the first one.
    pub open spec fn last_index(self, last_included_index: u64) -> u64 {
        if self.entries.len() == 0 && last_included_index > 0 {
            last_included_index
        } else if self.entries.len() > 0 {
            self.entries.last().index
        } else {
            (self.start_index - 1) as u64
        }
    }

    /// `last_index` can be computed: it does not go below zero.
    pub open spec fn has_last_index(self, last_included_index: u64) -> bool {
        self.entries.len() > 0 || last_included_index > 0 || self.start_index >= 1
    }

    /// The term of the last entry; `last_included_term` when the log holds no entry because
    /// of a snapshot, else 0.
    pub open spec fn last_term(self, last_included_term: u64) -> u64 {
        if self.entries.len() == 0 && last_included_term > 0 {
            last_included_term
        } else if self.entries.len() > 0 {
            self.entries.last().term
        } else {
            0
        }
    }

    /// The entry at a log index: the virtual entry below `start_index`, the stored one
    /// from there on, none past the end.
    pub open spec fn entry_at(self, index: u64) -> Option<LogEntryView> {
        if index < self.start_index {
            Some(virtual_entry())
        } else if index - self.start_index < self.entries.len() {
            Some(self.entries[index - self.start_index])
        } else {
            None
        }
    }

    /// The entries from `next_index` on.
    pub open spec fn entries_from(self, next_index: u64) -> Seq<LogEntryView> {
        if next_index < self.start_index || next_index - self.start_index >= self.entries.len() {
            Seq::empty()
        } else {
            self.entries.subrange(next_index - self.start_index, self.entries.len() as int)
        }
    }

    /// The log after the entries past `last_index_kept` are dropped: all of them when that
    /// index lies before the log's start.
    pub open spec fn truncated_suffix(self, last_index_kept: u64) -> LogView {
        if last_index_kept < self.start_index {
            LogView { entries: Seq::empty(), ..self }
        } else if last_index_kept - self.start_index + 1 >= self.entries.len() {
            self
        } else {
            LogView {
                entries: self.entries.take(last_index_kept - self.start_index + 1),
                ..self
            }
        }
    }

    /// Every stored entry carries its own log index.
    pub open spec fn indexes_consecutive(self) -> bool {
        forall|i: int|
            0 <= i < self.entries.len() ==> (#[trigger] self.entries[i]).index == self.start_index
                + i
    }

    /// No stored entry carries a log index beyond its position: then every index from
    /// `start_index` to the last one has an entry stored.
    pub open spec fn indexes_bounded(self) -> bool {
        forall|i: int|
            0 <= i < self.entries.len() ==> (#[trigger] self.entries[i]).index <= self.start_index
                + i
    }

    /// The configuration stored in the last configuration entry can be decoded.
    pub open spec fn last_configuration_decodes(self) -> bool {
        let p = last_configuration_position(self.entries);
        p >= 0 ==> config::decoded_configuration(self.entries[p].data) is Some
    }

    /// The configuration of the last configuration entry, if there is one.
    pub open spec fn last_configuration(self) -> Option<config::ConfigurationView> {
        let p = last_configuration_position(self.entries);
        if p >= 0 {
            config::decoded_configuration(self.entries[p].data)
        } else {
            None
        }
    }
}


/// Law: what `append_data` writes is read back: when the log holds consecutive indexes,
/// after appending the payloads the log still does, its last index grew by their number,
/// the entry at `base + 1 + k` is the k-th new one, and the entries up to `base` are kept.
pub proof fn law_appended_data_is_readable(log: LogView, term: u64, entry_data: Seq<LogEntryData>)
    requires
        log.start_index >= 1,
        log.indexes_consecutive(),
        log.last_index(0) + entry_data.len() <= u64::MAX,
    ensures
        ({
            let base = log.last_index(0);
            let added = data_entries(base, term, entry_data);
            let log2 = LogView { entries: log.entries + added, ..log };
            &&& log2.indexes_consecutive()
            &&& log2.last_index(0) == base + entry_data.len()
            &&& forall|k: int| 0 <= k < entry_data.len() ==> #[trigger] log2.entry_at((base + 1 + k) as u64) == Some(added[k])
            &&& forall|i: u64| i <= base ==> #[trigger] log2.entry_at(i) == log.entry_at(i)
        }),
{
    let base = log.last_index(0);
    let added = data_entries(base, term, entry_data);
    let log2 = LogView { entries: log.entries + added, ..log };
    let n = log.entries.len();
    if n > 0 {
        assert(log.entries[n - 1].index == log.start_index + n - 1);
    }
    assert(base == log.start_index + n - 1);
    assert forall|i: int| 0 <= i < log2.entries.len() implies (#[trigger] log2.entries[i]).index == log2.start_index + i by {
        if i >= n {
            assert(log2.entries[i] == added[i - n]);
        }
    }
    if entry_data.len() > 0 {
        assert(log2.entries[log2.entries.len() - 1] == added[entry_data.len() - 1]);
    }
    assert forall|k: int| 0 <= k < entry_data.len() implies #[trigger] log2.entry_at((base + 1 + k) as u64) == Some(added[k]) by {
        assert(log2.entries[n + k] == added[k]);
    }
}

/// Law: dropping the entries after `last_index_kept` of a log with consecutive indexes,
/// for an index from the one before its start to its last one, leaves `last_index_kept` as
/// the last index, keeps the entries up to it, leaves none after it, and keeps the indexes
/// consecutive; below the start, no stored entry is left.
pub proof fn law_truncated_suffix_ends_at_kept_index(log: LogView, last_index_kept: u64)
    requires
        log.start_index >= 1,
        log.indexes_consecutive(),
        last_index_kept <= log.last_index(0),
    ensures
        ({
            let t = log.truncated_suffix(last_index_kept);
            &&& t.indexes_consecutive()
            &&& last_index_kept < log.start_index ==> t.entries.len() == 0
            &&& last_index_kept + 1 >= log.start_index ==> {
                &&& t.last_index(0) == last_index_kept
                &&& forall|i: u64| i <= last_index_kept ==> #[trigger] t.entry_at(i) == log.entry_at(i)
                &&& forall|i: u64| i > last_index_kept ==> (#[trigger] t.entry_at(i)) is None
            }
        }),
{
    let n = log.entries.len();
    if n > 0 {
        assert(log.entries[n - 1].index == log.start_index + n - 1);
    }
    let t = log.truncated_suffix(last_index_kept);
    if last_index_kept >= log.start_index {
        let m = t.entries.len();
        assert(m == last_index_kept - log.start_index + 1);
        assert(t.entries[m - 1] == log.entries[m - 1]);
    }
}

/// Law: after the entries up to `last_included_index` are compacted away, a log with
/// consecutive indexes starts right after that index, keeps its indexes consecutive and its
/// last index, and holds the same entries after that index.
pub proof fn law_truncated_prefix_keeps_later_entries(log: LogView, last_included_index: u64)
    requires
        log.indexes_consecutive(),
        log.start_index <= last_included_index,
        last_included_index - log.start_index + 1 <= log.entries.len(),
        last_included_index < u64::MAX,
    ensures
        ({
            let t = LogView {
                entries: log.entries.skip(last_included_index - log.start_index + 1),
                start_index: (last_included_index + 1) as u64,
                ..log
            };
            &&& t.indexes_consecutive()
            &&& t.entries.len() > 0 ==> t.last_index(0) == log.last_index(0)
            &&& forall|i: u64| i > last_included_index ==> #[trigger] t.entry_at(i) == log.entry_at(i)
        }),
{
    let d = last_included_index - log.start_index + 1;
    let t = LogView {
        entries: log.entries.skip(d),
        start_index: (last_included_index + 1) as u64,
        ..log
    };
    if t.entries.len() > 0 {
        assert(t.entries[t.entries.len() - 1] == log.entries[log.entries.len() - 1]);
    }
    assert forall|i: u64| i > last_included_index implies #[trigger] t.entry_at(i) == log.entry_at(i) by {
        if i - t.start_index < t.entries.len() {
            assert(t.entries[i - t.start_index] == log.entries[i - log.start_index]);
        }
    }
}

#[derive(Debug)]
pub struct Log {
    entries: Vec<LogEntry>,
    start_index: u64,
    metadata_dir: String,
}

impl View for Log {
    type V = LogView;

    closed spec fn view(&self) -> LogView {
        LogView {
            entries: entries_view(self.entries@),
            start_index: self.start_index,
            metadata_dir: self.metadata_dir@,
        }
    }
}

impl Log {
    /// An empty log whose first entry will have index `start_index`.
    pub fn new(start_index: u64, metadata_dir: String) -> (log: Log)
        ensures
            log@ == (LogView { entries: Seq::empty(), start_index, metadata_dir: metadata_dir@ }),
    {
        let log = Log { entries: Vec::new(), start_index, metadata_dir };
        assert(log@.entries =~= Seq::<LogEntryView>::empty());
        log
    }

    /// A log with the given entries from `start_index` on, as it was saved.
    pub fn restore(entries: Vec<LogEntry>, start_index: u64, metadata_dir: String) -> (log: Log)
        ensures
            log@ == (LogView { entries: entries_view(entries@), start_index, metadata_dir: metadata_dir@ }),
    {
        Log { entries, start_index, metadata_dir }
    }

    /// Appends one entry per payload, all in `term`, with the indexes that follow the last
    /// one.
    pub fn append_data(&mut self, term: u64, entry_data: Vec<LogEntryData>)
        requires
            old(self)@.has_last_index(0),
            old(self)@.last_index(0) + entry_data@.len() <= u64::MAX,
        ensures
            final(self)@ == (LogView {
                entries: old(self)@.entries + data_entries(old(self)@.last_index(0), term, entry_data@),
                ..old(self)@
            }),
    {
        let ghost base = self@.last_index(0);
        let ghost first = self@.entries;
        let mut k: usize = 0;
        while k < entry_data.len()
            invariant
                k <= entry_data.len(),
                base == old(self)@.last_index(0),
                base + entry_data@.len() <= u64::MAX,
                first == old(self)@.entries,
                self@ == (LogView {
                    entries: first + data_entries(base, term, entry_data@).take(k as int),
                    ..old(self)@
                }),
                k > 0 ==> self@.last_index(0) == base + k && self@.entries.len() > 0,
                old(self)@.has_last_index(0),
                k == 0 ==> self@ == old(self)@,
            decreases entry_data.len() - k,
        {
            let index = self.last_index(0) + 1;
            let item = &entry_data[k];
            let log_entry = LogEntry { index, term, entry_type: item.0, data: copy_bytes(&item.1) };
            let ghost prev = self@.entries;
            self.entries.push(log_entry);
            assert(self@.entries =~= prev.push(log_entry@));
            assert(data_entries(base, term, entry_data@).take(k + 1) =~= data_entries(
                base,
                term,
                entry_data@,
            ).take(k as int).push(log_entry@));
            k = k + 1;
        }
        assert(data_entries(base, term, entry_data@).take(k as int) =~= data_entries(base, term, entry_data@));
    }

    /// Appends the given entries as they are.
    pub fn append_entries(&mut self, entries: Vec<LogEntry>)
        ensures
            final(self)@ == (LogView { entries: old(self)@.entries + entries_view(entries@), ..old(self)@ }),
    {
        let ghost added = entries_view(entries@);
        let mut entries = entries;
        self.entries.append(&mut entries);
        assert(self@.entries =~= old(self)@.entries + added);
    }

    /// The stored entries.
    pub fn entries(&self) -> (r: &Vec<LogEntry>)
        ensures
            entries_view(r@) == self@.entries,
    {
        &self.entries
    }

    pub fn start_index(&self) -> (r: u64)
        ensures
            r == self@.start_index,
    {
        self.start_index
    }

    /// The directory where the log is kept on disk.
    pub fn metadata_dir(&self) -> (r: &String)
        ensures
            r@ == self@.metadata_dir,
    {
        &self.metadata_dir
    }

    /// The entry at a log index (see `LogView::entry_at`).
    pub fn entry(&self, index: u64) -> (r: Option<LogEntry>)
        ensures
            match r {
                Some(e) => self@.entry_at(index) == Some(e@),
                None => self@.entry_at(index) is None,
            },
    {
        if index < self.start_index {
            return Some(LogEntry { index: 0, term: 0, entry_type: EntryType::Noop, data: Vec::new() });
        }
        let offset = index - self.start_index;
        if offset < self.entries.len() as u64 {
            Some(self.entries[offset as usize].duplicate())
        } else {
            None
        }
    }

    /// Copies of the entries from `next_index` on, to send to a follower.
    pub fn pack_entries(&self, next_index: u64) -> (res: Vec<LogEntry>)
        ensures
            entries_view(res@) == self@.entries_from(next_index),
    {
        let mut res: Vec<LogEntry> = Vec::new();
        if next_index < self.start_index {
            assert(entries_view(res@) =~= self@.entries_from(next_index));
            return res;
        }
        let offset = next_index - self.start_index;
        if offset >= self.entries.len() as u64 {
            assert(entries_view(res@) =~= self@.entries_from(next_index));
            return res;
        }
        let mut i: usize = offset as usize;
        while i < self.entries.len()
            invariant
                offset <= i <= self.entries.len(),
                offset == next_index - self.start_index,
                offset < self.entries.len(),
                next_index >= self.start_index,
                res@.len() == i - offset,
                forall|j: int| 0 <= j < res@.len() ==> (#[trigger] res@[j])@ == self.entries@[offset + j]@,
            decreases self.entries.len() - i,
        {
            res.push(self.entries[i].duplicate());
            i = i + 1;
        }
        assert(entries_view(res@) =~= self@.entries_from(next_index));
        res
    }

    /// See `LogView::last_index`.
    pub fn last_index(&self, last_included_index: u64) -> (r: u64)
        requires
            self@.has_last_index(last_included_index),
        ensures
            r == self@.last_index(last_included_index),
    {
        if self.entries.len() == 0 && last_included_index > 0 {
            return last_included_index;
        }
        if self.entries.len() > 0 {
            self.entries[self.entries.len() - 1].index
        } else {
            self.start_index - 1
        }
    }

    /// See `LogView::last_term`.
    pub fn last_term(&self, last_included_term: u64) -> (r: u64)
        ensures
            r == self@.last_term(last_included_term),
    {
        if self.entries.len() == 0 && last_included_term > 0 {
            return last_included_term;
        }
        if self.entries.len() > 0 {
            self.entries[self.entries.len() - 1].term
        } else {
            0
        }
    }

    /// The term of the entry at `prev_log_index`; `last_included_term` when that index is
    /// the last one of the snapshot.
    pub fn prev_log_term(&self, prev_log_index: u64, last_included_index: u64, last_included_term: u64) -> (r: u64)
        requires
            prev_log_index == last_included_index || self@.entry_at(prev_log_index) is Some,
        ensures
            r == if prev_log_index == last_included_index {
                last_included_term
            } else {
                self@.entry_at(prev_log_index).unwrap().term
            },
    {
        if prev_log_index == last_included_index {
            return last_included_term;
        }
        match self.entry(prev_log_index) {
            Some(e) => e.term,
            None => 0,
        }
    }

    /// Drops the entries after `last_index_kept`, those that conflict with the leader's.
    pub fn truncate_suffix(&mut self, last_index_kept: u64)
        requires
            last_index_kept < old(self)@.start_index || last_index_kept - old(self)@.start_index < u64::MAX,
        ensures
            final(self)@ == old(self)@.truncated_suffix(last_index_kept),
    {
        if last_index_kept < self.start_index {
            self.entries.truncate(0);
            assert(self@.entries =~= Seq::<LogEntryView>::empty());
            return;
        }
        let keep = last_index_kept - self.start_index + 1;
        if keep < self.entries.len() as u64 {
            self.entries.truncate(keep as usize);
            assert(self@.entries =~= old(self)@.entries.take(keep as int));
        }
    }

    /// Drops the entries up to `last_included_index`, which a snapshot now holds; the log
    /// then starts right after it.
    pub fn truncate_prefix(&mut self, last_included_index: u64)
        requires
            last_included_index < old(self)@.start_index || (last_included_index - old(self)@.start_index
                + 1 <= old(self)@.entries.len() && last_included_index < u64::MAX),
        ensures
            last_included_index < old(self)@.start_index ==> final(self)@ == old(self)@,
            last_included_index >= old(self)@.start_index ==> final(self)@ == (LogView {
                entries: old(self)@.entries.skip(last_included_index - old(self)@.start_index + 1),
                start_index: (last_included_index + 1) as u64,
                ..old(self)@
            }),
    {
        if last_included_index < self.start_index {
            return;
        }
        let n = self.entries.len();
        assert(last_included_index - self.start_index + 1 <= n);
        let drop = (last_included_index - self.start_index + 1) as usize;
        let rest = self.entries.split_off(drop);
        self.entries = rest;
        self.start_index = last_included_index + 1;
        assert(self@.entries =~= old(self)@.entries.skip(drop as int));
    }

    /// How many stored entries are committed when the commit index is `commit_index`.
    pub fn committed_entries_len(&self, commit_index: u64) -> (r: usize)
        requires
            commit_index < self@.start_index || commit_index - self@.start_index < u64::MAX,
        ensures
            r == if commit_index < self@.start_index {
                0
            } else {
                (commit_index - self@.start_index + 1) as usize
            },
    {
        if commit_index < self.start_index {
            return 0;
        }
        (commit_index - self.start_index + 1) as usize
    }

    /// The configuration held by the last configuration entry, if there is one.
    pub fn last_configuration(&self) -> (c: Option<Configuration>)
        requires
            self@.last_configuration_decodes(),
        ensures
            match c {
                Some(c) => self@.last_configuration() == Some(c@),
                None => self@.last_configuration() is None,
            },
    {
        proof {
            lemma_last_configuration_position(self@.entries);
        }
        let mut i: usize = self.entries.len();
        while i > 0
            invariant
                i <= self.entries.len(),
                self@.last_configuration_decodes(),
                forall|j: int|
                    i <= j < self.entries@.len() ==> (#[trigger] self.entries@[j]).entry_type
                        != EntryType::Configuration,
                -1 <= last_configuration_position(self@.entries) < self@.entries.len(),
                last_configuration_position(self@.entries) >= 0 ==> self@.entries[last_configuration_position(
                    self@.entries,
                )].entry_type == EntryType::Configuration,
                forall|k: int|
                    last_configuration_position(self@.entries) < k < self@.entries.len()
                        ==> self@.entries[k].entry_type != EntryType::Configuration,
            decreases i,
        {
            i = i - 1;
            if self.entries[i].entry_type() == EntryType::Configuration {
                let ghost p = last_configuration_position(self@.entries);
                assert(self@.entries[i as int].entry_type == EntryType::Configuration);
                assert(p == i) by {
                    if p < i {
                        assert(self@.entries[i as int].entry_type != EntryType::Configuration);
                    }
                    if p > i {
                        assert(self.entries@[p].entry_type != EntryType::Configuration);
                    }
                }
                assert(self@.entries[i as int] == self.entries@[i as int]@);
                assert(self@.last_configuration_decodes());
                assert(config::decoded_configuration(self@.entries[p].data) is Some);
                return Some(Configuration::from_data(&self.entries[i].data));
            }
        }
        assert(last_configuration_position(self@.entries) == -1) by {
            let p = last_configuration_position(self@.entries);
            if p >= 0 {
                assert(self.entries@[p].entry_type != EntryType::Configuration);
            }
        }
        None
    }

    /// Path of the file that keeps the log: `raft.log` in the metadata directory.
    pub fn gen_log_filepath(metadata_dir: &String) -> (path: String)
        ensures
            path@ == metadata_dir@ + "/raft.log"@,
    {
        metadata_dir.clone().concat("/raft.log")
    }
}

} // verus!
