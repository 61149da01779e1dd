//! How often and how recently each application was launched.

use vstd::prelude::*;
use crate::strmap::{rows_map, StrMap};

verus! {

/// The version of the usage file that this library reads and writes.
pub const FREQ_VERSION: u32 = 2;

/// The usage of one application.
#[derive(Debug, Clone, Copy, PartialEq, Eq, Structural)]
pub struct Usage {
    /// The number of launches; it stops at `u32::MAX`.
    pub freq: u32,
    /// The time of the last launch in seconds since the epoch; 0 where it is
    /// not known.
    pub last_used: u64,
}

impl Default for Usage {
    fn default() -> (u: Self)
        ensures
            u == (Usage { freq: 0, last_used: 0 }),
    {
        Usage { freq: 0, last_used: 0 }
    }
}

/// The usage of `id` in `m`: never launched where `m` has no row for it.
pub open spec fn usage_of(m: Map<Seq<char>, Usage>, id: Seq<char>) -> Usage {
    if m.contains_key(id) {
        m[id]
    } else {
        Usage { freq: 0, last_used: 0 }
    }
}

/// A count of launches after one more launch.
pub open spec fn bumped(freq: u32) -> u32 {
    if freq == u32::MAX {
        u32::MAX
    } else {
        (freq + 1) as u32
    }
}

/// The usage of an application with usage `u` after one more launch, at time
/// `now`.
pub open spec fn launched(u: Usage, now: u64) -> Usage {
    Usage { freq: bumped(u.freq), last_used: now }
}

/// The usage of `id` in `map`.
pub fn lookup_usage(map: &StrMap<Usage>, id: &str) -> (u: Usage)
    ensures
        u == usage_of(map@, id@),
{
    match map.get(id) {
        Some(u) => *u,
        None => Usage { freq: 0, last_used: 0 },
    }
}

/// The clock in seconds since the epoch, by `std::time::SystemTime::now`; 0
/// where the clock stands before the epoch. Nothing is known of the value.
#[verifier::external_body]
pub fn unix_seconds_now() -> u64 {
    std::time::SystemTime::now().duration_since(std::time::UNIX_EPOCH).map(|d| d.as_secs()).unwrap_or(
        0,
    )
}

/// The usage of every application, and whether it has changed since it was
/// last written out.
pub struct FrequencyStore {
    map: StrMap<Usage>,
    dirty: bool,
}

impl FrequencyStore {
    /// The usage that the store holds.
    pub closed spec fn usage(&self) -> Map<Seq<char>, Usage> {
        self.map@
    }

    /// Whether the store holds changes that were not written out.
    pub closed spec fn dirty(&self) -> bool {
        self.dirty
    }

    /// A store without usage and without changes.
    pub fn new() -> (s: Self)
        ensures
            s.usage() == Map::<Seq<char>, Usage>::empty(),
            !s.dirty(),
    {
        FrequencyStore { map: StrMap::new(), dirty: false }
    }

    /// The store that a usage file stands for: its rows where `version` is
    /// [`FREQ_VERSION`], of two rows for one id the later; else nothing.
    pub fn from_file(version: u32, rows: Vec<(String, Usage)>) -> (s: Self)
        ensures
            s.usage() == if version == FREQ_VERSION {
                rows_map(rows@)
            } else {
                Map::empty()
            },
            !s.dirty(),
    {
        let mut map: StrMap<Usage> = StrMap::new();
        if version == FREQ_VERSION {
            let mut i: usize = 0;
            while i < rows.len()
                invariant
                    i <= rows.len(),
                    map@ == rows_map(rows@.take(i as int)),
                decreases rows.len() - i,
            {
                let id = rows[i].0.clone();
                map.insert(id, rows[i].1);
                assert(rows@.take(i + 1).drop_last() =~= rows@.take(i as int));
                i += 1;
            }
            assert(rows@.take(rows@.len() as int) =~= rows@);
        }
        FrequencyStore { map, dirty: false }
    }

    /// The usage of `id`.
    pub fn get(&self, id: &str) -> (u: Usage)
        ensures
            u == usage_of(self.usage(), id@),
    {
        lookup_usage(&self.map, id)
    }

    /// Records a launch of `id` at time `now`, and returns the new count.
    pub fn increment_at(&mut self, id: &str, now: u64) -> (freq: u32)
        ensures
            final(self).usage() == old(self).usage().insert(
                id@,
                launched(usage_of(old(self).usage(), id@), now),
            ),
            final(self).dirty(),
            freq == bumped(usage_of(old(self).usage(), id@).freq),
    {
        let u = lookup_usage(&self.map, id);
        let freq: u32 = if u.freq == u32::MAX {
            u32::MAX
        } else {
            u.freq + 1
        };
        self.map.insert(id.to_owned(), Usage { freq, last_used: now });
        self.dirty = true;
        freq
    }

    /// Records a launch of `id` at the present time, and returns the new
    /// count. The count of `id` goes up by one, unless it is at its limit; the
    /// time of its last launch is whatever the clock said; no other
    /// application's usage changes.
    pub fn increment(&mut self, id: &str) -> (freq: u32)
        ensures
            exists|now: u64|
                final(self).usage() == old(self).usage().insert(
                    id@,
                    #[trigger] launched(usage_of(old(self).usage(), id@), now),
                ),
            final(self).dirty(),
            freq == bumped(usage_of(old(self).usage(), id@).freq),
    {
        let now = unix_seconds_now();
        self.increment_at(id, now)
    }

    /// The usage map.
    pub fn map(&self) -> (m: &StrMap<Usage>)
        ensures
            m@ == self.usage(),
    {
        &self.map
    }

    /// Whether the store holds changes that were not written out.
    pub fn is_dirty(&self) -> (b: bool)
        ensures
            b == self.dirty(),
    {
        self.dirty
    }

    /// Notes that the store was written out.
    pub fn mark_flushed(&mut self)
        ensures
            final(self).usage() == old(self).usage(),
            !final(self).dirty(),
    {
        self.dirty = false;
    }
}

/// The name of the usage file: `frequencies.v`, the version, `.bin`.
pub open spec fn frequency_file_name_of() -> Seq<char> {
    "frequencies.v"@ + crate::text::digits_of(FREQ_VERSION as nat, 10) + ".bin"@
}

/// The path of the usage file below `data_dir`.
pub fn frequency_path(data_dir: &str) -> (path: String)
    ensures
        path@ == crate::desktop::path_joined(data_dir@, frequency_file_name_of()),
{
    let mut name = "frequencies.v".to_owned();
    crate::text::push_digits(&mut name, FREQ_VERSION as u64, 10);
    name.append(".bin");
    crate::desktop::join_path(data_dir, name.as_str())
}

} // verus!
