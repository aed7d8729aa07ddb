//! Snapshot metadata, and the names of the files that hold snapshots.
use vstd::prelude::*;
use crate::config::{Configuration, ConfigurationView};
use crate::util;
use crate::util::{decimal, ends_with, parsed_u64};

verus! {

/// What `regex::Regex::captures` finds of the pattern's first two groups in a file name,
/// or `None` when the pattern does not match.
pub uninterp spec fn regex_two_captures(pattern: Seq<char>, haystack: Seq<char>) -> Option<(Seq<char>, Seq<char>)>;

/// Compiles `pattern` with `regex::Regex::new` and returns the text of groups 1 and 2 of
/// its first match in `haystack` (`regex::Regex::captures`); its result is named by
/// `regex_two_captures`.
#[verifier::external_body]
fn two_captures(pattern: &str, haystack: &str) -> (r: Option<(String, String)>)
    ensures
        match r {
            Some(c) => regex_two_captures(pattern@, haystack@) == Some((c.0@, c.1@)),
            None => regex_two_captures(pattern@, haystack@) is None,
        },
{
    let re = regex::Regex::new(pattern).ok()?;
    let caps = re.captures(haystack)?;
    let first = caps.get(1)?;
    let second = caps.get(2)?;
    Some((first.as_str().to_string(), second.as_str().to_string()))
}

/// File name pattern of snapshots.
pub open spec fn snapshot_pattern() -> Seq<char> {
    "raft-(\\d+)-(\\d+).snapshot"@
}

/// File name pattern of snapshot metadata.
pub open spec fn metadata_pattern() -> Seq<char> {
    "raft-(\\d+)-(\\d+).snapshot.metadata"@
}

/// The (index, term) pair that the two captured groups of a file name give, when both
/// read as numbers.
pub open spec fn pair_of_captures(c: Option<(Seq<char>, Seq<char>)>) -> Option<(u64, u64)> {
    match c {
        Some(c) => match (parsed_u64(c.0), parsed_u64(c.1)) {
            (Some(i), Some(t)) => Some((i, t)),
            _ => None,
        },
        None => None,
    }
}

/// The (index, term) pair named by a file, when its name matches the pattern and both
/// numbers can be read.
pub open spec fn index_term_of(pattern: Seq<char>, name: Seq<char>) -> Option<(u64, u64)> {
    pair_of_captures(regex_two_captures(pattern, name))
}

/// The largest (index, term) pair, in lexicographic order, among the files whose names end
/// with `suffix`, starting from (0, 0), where `caps[i]` holds the groups captured in the
/// name `names[i]`; `Err(k)` names the first such file (its position) whose captures give
/// no pair.
pub open spec fn latest_of_captures(
    names: Seq<Seq<char>>,
    suffix: Seq<char>,
    caps: Seq<Option<(Seq<char>, Seq<char>)>>,
) -> Result<(u64, u64), int>
    decreases names.len(),
{
    if names.len() == 0 {
        Ok((0, 0))
    } else {
        match latest_of_captures(names.drop_last(), suffix, caps.drop_last()) {
            Err(k) => Err(k),
            Ok(best) => {
                if !ends_with(names.last(), suffix) {
                    Ok(best)
                } else {
                    match pair_of_captures(caps[names.len() - 1]) {
                        None => Err(names.len() - 1),
                        Some(p) => if p.0 > best.0 || (p.0 == best.0 && p.1 > best.1) {
                            Ok(p)
                        } else {
                            Ok(best)
                        },
                    }
                }
            },
        }
    }
}

/// The choice of `latest_of_captures` with the groups that the pattern captures in each
/// name.
pub open spec fn latest_index_term(names: Seq<Seq<char>>, pattern: Seq<char>, suffix: Seq<char>) -> Result<(u64, u64), int> {
    latest_of_captures(names, suffix, Seq::new(names.len(), |i: int| regex_two_captures(pattern, names[i])))
}

/// The captured groups, as text.
pub open spec fn captures_view(caps: Seq<Option<(String, String)>>) -> Seq<Option<(Seq<char>, Seq<char>)>> {
    caps.map_values(
        |c: Option<(String, String)>|
            match c {
                Some(p) => Some((p.0@, p.1@)),
                None => None,
            },
    )
}

/// Captures that agree with the pattern on every name with the suffix give the same
/// choice, whatever they hold for the other names.
proof fn lemma_latest_of_captures_agree(
    names: Seq<Seq<char>>,
    suffix: Seq<char>,
    caps: Seq<Option<(Seq<char>, Seq<char>)>>,
    caps2: Seq<Option<(Seq<char>, Seq<char>)>>,
)
    requires
        caps.len() == names.len(),
        caps2.len() == names.len(),
        forall|i: int| 0 <= i < names.len() && ends_with(names[i], suffix) ==> #[trigger] caps[i] == caps2[i],
    ensures
        latest_of_captures(names, suffix, caps) == latest_of_captures(names, suffix, caps2),
    decreases names.len(),
{
    if names.len() > 0 {
        let n = names.len() - 1;
        let p = names.drop_last();
        assert forall|i: int| 0 <= i < p.len() && ends_with(p[i], suffix) implies #[trigger] caps.drop_last()[i]
            == caps2.drop_last()[i] by {
            assert(p[i] == names[i] && caps.drop_last()[i] == caps[i] && caps2.drop_last()[i] == caps2[i]);
        }
        lemma_latest_of_captures_agree(p, suffix, caps.drop_last(), caps2.drop_last());
        assert(names.last() == names[n]);
    }
}

/// Once a file name gives no pair, the scan stops there whatever follows.
proof fn lemma_latest_stops(
    names: Seq<Seq<char>>,
    suffix: Seq<char>,
    caps: Seq<Option<(Seq<char>, Seq<char>)>>,
    i: int,
)
    requires
        caps.len() == names.len(),
        0 <= i < names.len(),
        latest_of_captures(names.take(i + 1), suffix, caps.take(i + 1)) == Err::<(u64, u64), int>(i),
    ensures
        latest_of_captures(names, suffix, caps) == Err::<(u64, u64), int>(i),
    decreases names.len() - i,
{
    if names.len() == i + 1 {
        assert(names.take(i + 1) =~= names);
        assert(caps.take(i + 1) =~= caps);
    } else {
        assert(names.drop_last().take(i + 1) =~= names.take(i + 1));
        assert(caps.drop_last().take(i + 1) =~= caps.take(i + 1));
        lemma_latest_stops(names.drop_last(), suffix, caps.drop_last(), i);
    }
}

/// The path of a snapshot file in `dir`.
pub open spec fn snapshot_path(dir: Seq<char>, index: u64, term: u64, extension: Seq<char>) -> Seq<char> {
    dir + "/raft-"@ + decimal(index as nat) + "-"@ + decimal(term as nat) + extension
}

/// A file name that ends with the snapshot suffix but names no (index, term) pair.
#[derive(Debug, PartialEq, Eq, Clone, Copy, Structural)]
pub struct UnreadableSnapshotName {
    pub position: usize,
}

#[derive(Debug)]
pub struct Snapshot {
    pub last_included_index: u64,
    pub last_included_term: u64,
    pub configuration: Option<Configuration>,
    pub snapshot_dir: String,
}

pub open spec fn names_view(names: Seq<String>) -> Seq<Seq<char>> {
    names.map_values(|n: String| n@)
}

impl Snapshot {
    /// No snapshot yet: index and term 0, no configuration.
    pub fn new(snapshot_dir: String) -> (s: Snapshot)
        ensures
            s.last_included_index == 0,
            s.last_included_term == 0,
            s.configuration is None,
            s.snapshot_dir@ == snapshot_dir@,
    {
        Snapshot { last_included_index: 0, last_included_term: 0, configuration: None, snapshot_dir }
    }

    /// Records the metadata of a new snapshot and gives the path of the file where it is
    /// to be written.
    pub fn take_snapshot_metadata(
        &mut self,
        last_included_index: u64,
        last_included_term: u64,
        configuration: Option<Configuration>,
    ) -> (path: String)
        ensures
            final(self).last_included_index == last_included_index,
            final(self).last_included_term == last_included_term,
            final(self).configuration == configuration,
            final(self).snapshot_dir == old(self).snapshot_dir,
            path@ == snapshot_path(old(self).snapshot_dir@, last_included_index, last_included_term, ".snapshot.metadata"@),
    {
        self.last_included_index = last_included_index;
        self.last_included_term = last_included_term;
        self.configuration = configuration;
        self.gen_snapshot_metadata_filepath(last_included_index, last_included_term)
    }

    /// The latest (index, term) pair among the files whose names end with `suffix`, given
    /// the groups captured in each name (see `latest_of_captures`); `Err` gives the position
    /// of the first such file whose captures do not read as two numbers.
    pub fn latest_index_term_of_captures(
        names: &Vec<String>,
        suffix: &str,
        captures: &Vec<Option<(String, String)>>,
    ) -> (r: Result<(u64, u64), usize>)
        requires
            captures.len() == names.len(),
        ensures
            match r {
                Ok(p) => latest_of_captures(names_view(names@), suffix@, captures_view(captures@))
                    == Ok::<(u64, u64), int>(p),
                Err(k) => latest_of_captures(names_view(names@), suffix@, captures_view(captures@))
                    == Err::<(u64, u64), int>(k as int),
            },
    {
        let ghost nv = names_view(names@);
        let ghost cv = captures_view(captures@);
        let mut latest: (u64, u64) = (0, 0);
        let mut i: usize = 0;
        while i < names.len()
            invariant
                i <= names.len(),
                captures.len() == names.len(),
                nv == names_view(names@),
                cv == captures_view(captures@),
                latest_of_captures(nv.take(i as int), suffix@, cv.take(i as int)) == Ok::<(u64, u64), int>(latest),
            decreases names.len() - i,
        {
            assert(nv.take(i + 1).drop_last() =~= nv.take(i as int));
            assert(cv.take(i + 1).drop_last() =~= cv.take(i as int));
            assert(nv.take(i + 1).last() == names@[i as int]@);
            let name = names[i].as_str();
            if util::has_suffix(name, suffix) {
                let pair = match &captures[i] {
                    Some(c) => {
                        let index = util::parse_u64(c.0.as_str());
                        let term = util::parse_u64(c.1.as_str());
                        match (index, term) {
                            (Some(index), Some(term)) => Some((index, term)),
                            _ => None,
                        }
                    },
                    None => None,
                };
                assert(pair == pair_of_captures(cv.take(i + 1)[i as int]));
                match pair {
                    Some(p) => {
                        if p.0 > latest.0 || (p.0 == latest.0 && p.1 > latest.1) {
                            latest = p;
                        }
                    },
                    None => {
                        proof {
                            lemma_latest_stops(nv, suffix@, cv, i as int);
                        }
                        return Err(i);
                    },
                }
            }
            i = i + 1;
        }
        assert(nv.take(i as int) =~= nv);
        assert(cv.take(i as int) =~= cv);
        Ok(latest)
    }

    /// Finds the groups that `pattern` captures in each name with the suffix, then the
    /// latest pair among them.
    fn latest_index_term_among(names: &Vec<String>, pattern: &str, suffix: &str) -> (r: Result<(u64, u64), usize>)
        ensures
            match r {
                Ok(p) => latest_index_term(names_view(names@), pattern@, suffix@) == Ok::<(u64, u64), int>(p),
                Err(k) => latest_index_term(names_view(names@), pattern@, suffix@) == Err::<(u64, u64), int>(k as int),
            },
    {
        let ghost nv = names_view(names@);
        let ghost full = Seq::new(nv.len(), |j: int| regex_two_captures(pattern@, nv[j]));
        let mut captures: Vec<Option<(String, String)>> = Vec::new();
        let mut i: usize = 0;
        while i < names.len()
            invariant
                i <= names.len(),
                nv == names_view(names@),
                full == Seq::new(nv.len(), |j: int| regex_two_captures(pattern@, nv[j])),
                captures.len() == i,
                forall|j: int| 0 <= j < i && ends_with(nv[j], suffix@) ==> #[trigger] captures_view(captures@)[j]
                    == full[j],
            decreases names.len() - i,
        {
            let name = names[i].as_str();
            assert(nv[i as int] == name@);
            let ghost before = captures@;
            if util::has_suffix(name, suffix) {
                let c = two_captures(pattern, name);
                let ghost cv_c: Option<(Seq<char>, Seq<char>)> = match &c {
                    Some(p) => Some((p.0@, p.1@)),
                    None => None,
                };
                assert(cv_c == full[i as int]);
                captures.push(c);
                assert(captures_view(captures@)[i as int] == cv_c);
            } else {
                captures.push(None);
            }
            proof {
                assert forall|j: int| 0 <= j < i + 1 && ends_with(nv[j], suffix@) implies #[trigger] captures_view(
                    captures@,
                )[j] == full[j] by {
                    if j < i {
                        assert(captures@[j] == before[j]);
                        assert(captures_view(captures@)[j] == captures_view(before)[j]);
                    }
                }
            }
            i = i + 1;
        }
        proof {
            lemma_latest_of_captures_agree(nv, suffix@, captures_view(captures@), full);
        }
        Self::latest_index_term_of_captures(names, suffix, &captures)
    }

    fn latest_filepath(&self, names: &Vec<String>, pattern: &str, suffix: &str) -> (r: Result<Option<String>, UnreadableSnapshotName>)
        ensures
            match latest_index_term(names_view(names@), pattern@, suffix@) {
                Err(k) => r == Err::<Option<String>, UnreadableSnapshotName>(UnreadableSnapshotName { position: k as usize }),
                Ok(p) => if p.0 != 0 && p.1 != 0 {
                    r is Ok && r->Ok_0 is Some && r->Ok_0->Some_0@ == snapshot_path(self.snapshot_dir@, p.0, p.1, suffix@)
                } else {
                    r is Ok && r->Ok_0 is None
                },
            },
    {
        match Self::latest_index_term_among(names, pattern, suffix) {
            Err(k) => Err(UnreadableSnapshotName { position: k }),
            Ok(p) => {
                if p.0 != 0 && p.1 != 0 {
                    Ok(Some(util::snapshot_file_path(self.snapshot_dir.as_str(), p.0, p.1, suffix)))
                } else {
                    Ok(None)
                }
            },
        }
    }

    /// Among the names of the files of the snapshot directory, the path of the latest
    /// snapshot, by index then term, if there is one with both nonzero (see
    /// `latest_index_term`); an error names a snapshot file whose name gives no numbers.
    pub fn latest_snapshot_filepath(&self, file_names: &Vec<String>) -> (r: Result<Option<String>, UnreadableSnapshotName>)
        ensures
            match latest_index_term(names_view(file_names@), snapshot_pattern(), ".snapshot"@) {
                Err(k) => r == Err::<Option<String>, UnreadableSnapshotName>(UnreadableSnapshotName { position: k as usize }),
                Ok(p) => if p.0 != 0 && p.1 != 0 {
                    r is Ok && r->Ok_0 is Some && r->Ok_0->Some_0@ == snapshot_path(self.snapshot_dir@, p.0, p.1, ".snapshot"@)
                } else {
                    r is Ok && r->Ok_0 is None
                },
            },
    {
        self.latest_filepath(file_names, "raft-(\\d+)-(\\d+).snapshot", ".snapshot")
    }

    /// Among the names of the files of the snapshot directory, the path of the latest
    /// snapshot metadata (see `latest_snapshot_filepath`).
    pub fn latest_metadata_filepath(&self, file_names: &Vec<String>) -> (r: Result<Option<String>, UnreadableSnapshotName>)
        ensures
            match latest_index_term(names_view(file_names@), metadata_pattern(), ".snapshot.metadata"@) {
                Err(k) => r == Err::<Option<String>, UnreadableSnapshotName>(UnreadableSnapshotName { position: k as usize }),
                Ok(p) => if p.0 != 0 && p.1 != 0 {
                    r is Ok && r->Ok_0 is Some && r->Ok_0->Some_0@ == snapshot_path(self.snapshot_dir@, p.0, p.1, ".snapshot.metadata"@)
                } else {
                    r is Ok && r->Ok_0 is None
                },
            },
    {
        self.latest_filepath(file_names, "raft-(\\d+)-(\\d+).snapshot.metadata", ".snapshot.metadata")
    }

    pub fn gen_snapshot_filepath(&self, last_included_index: u64, last_included_term: u64) -> (path: String)
        ensures
            path@ == snapshot_path(self.snapshot_dir@, last_included_index, last_included_term, ".snapshot"@),
    {
        util::snapshot_file_path(self.snapshot_dir.as_str(), last_included_index, last_included_term, ".snapshot")
    }

    pub fn gen_snapshot_metadata_filepath(&self, last_included_index: u64, last_included_term: u64) -> (path: String)
        ensures
            path@ == snapshot_path(self.snapshot_dir@, last_included_index, last_included_term, ".snapshot.metadata"@),
    {
        util::snapshot_file_path(
            self.snapshot_dir.as_str(),
            last_included_index,
            last_included_term,
            ".snapshot.metadata",
        )
    }

    pub fn gen_tmp_snapshot_filepath(&self, last_included_index: u64, last_included_term: u64) -> (path: String)
        ensures
            path@ == snapshot_path(self.snapshot_dir@, last_included_index, last_included_term, ".snapshot.tmp"@),
    {
        util::snapshot_file_path(self.snapshot_dir.as_str(), last_included_index, last_included_term, ".snapshot.tmp")
    }

    pub fn gen_tmp_snapshot_metadata_filepath(&self, last_included_index: u64, last_included_term: u64) -> (path: String)
        ensures
            path@ == snapshot_path(
                self.snapshot_dir@,
                last_included_index,
                last_included_term,
                ".snapshot.metadata.tmp"@,
            ),
    {
        util::snapshot_file_path(
            self.snapshot_dir.as_str(),
            last_included_index,
            last_included_term,
            ".snapshot.metadata.tmp",
        )
    }
}

} // verus!
