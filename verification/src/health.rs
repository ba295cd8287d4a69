//! The health of endpoints: what is counted against each, how long it rests, and what of that
//! outlives the process.

use crate::string_map::StringMap;
use crate::text;
use vstd::prelude::*;

verus! {

/// Hard failures in a row after which an endpoint is taken to be dead.
pub const HARD_FAILURE_THRESHOLD: u32 = 3;

/// Seconds for which a dead endpoint rests: three hours.
pub const HARD_FAILURE_COOLDOWN: u64 = 3 * 60 * 60;

/// Seconds for which an endpoint rests that asked for fewer requests.
pub const RATE_LIMIT_COOLDOWN: u64 = 60;

/// Nanoseconds in a second.
pub const NANOS_PER_SECOND: u128 = 1_000_000_000;

/// One reading of both clocks.
#[derive(Clone, Copy)]
pub struct Clock {
    /// Nanoseconds on a clock that never goes back, from an origin that stays fixed while the
    /// process runs.
    pub instant: u64,
    /// Whole seconds since the Unix epoch.
    pub unix: u64,
}

impl Clock {
    /// Whether the time at which a cooldown from now ends can be written down.
    pub open spec fn has_room(self) -> bool {
        self.unix + HARD_FAILURE_COOLDOWN <= u64::MAX
    }
}

/// The instant that lies a number of seconds behind another.
pub open spec fn instant_after(instant: u64, seconds: u64) -> nat {
    (instant + seconds * 1_000_000_000) as nat
}

pub(crate) fn later(instant: u64, seconds: u64) -> (r: u128)
    ensures
        r == instant_after(instant, seconds),
{
    assert(seconds * 1_000_000_000 <= u64::MAX * 1_000_000_000) by (nonlinear_arith)
        requires
            seconds <= u64::MAX,
    ;
    instant as u128 + (seconds as u128) * NANOS_PER_SECOND
}

/// The key under which the health of an endpoint of a chain is kept.
pub open spec fn key_of(chain_id: Seq<char>, url: Seq<char>) -> Seq<char> {
    chain_id.push('\n') + url
}

/// The key under which the health of an endpoint of a chain is kept.
pub fn endpoint_key(chain_id: &str, url: &str) -> (r: String)
    ensures
        r@ == key_of(chain_id@, url@),
{
    let mut key = chain_id.to_owned();
    key.append("\n");
    key.append(url);
    proof {
        reveal_strlit("\n");
        assert(key@ =~= key_of(chain_id@, url@));
    }
    key
}

/// `std::time::SystemTime::elapsed` on the Unix epoch: the whole seconds since then, or none where
/// the system's clock stands before it. Nothing is said of what the clock shows.
#[verifier::external_body]
fn read_unix_clock() -> Option<u64> {
    match std::time::UNIX_EPOCH.elapsed() {
        Ok(elapsed) => Some(elapsed.as_secs()),
        Err(_) => None,
    }
}

/// The time that a reading of the system's clock stands for: a clock before the epoch counts as the
/// epoch.
pub fn unix_seconds(reading: Option<u64>) -> (r: u64)
    ensures
        r == (match reading {
            Some(seconds) => seconds,
            None => 0u64,
        }),
{
    match reading {
        Some(seconds) => seconds,
        None => 0,
    }
}

/// Whole seconds since the Unix epoch, by the system's clock.
pub fn unix_now() -> u64 {
    unix_seconds(read_unix_clock())
}

/// What is kept of a dead endpoint.
pub struct PersistedEndpointHealth {
    pub chain_id: String,
    pub url: String,
    pub reason: String,
    /// In seconds since the Unix epoch.
    pub unavailable_until: u64,
}

/// What is kept of a dead endpoint, for specifications.
pub struct HealthEntry {
    pub chain_id: Seq<char>,
    pub url: Seq<char>,
    pub reason: Seq<char>,
    pub unavailable_until: u64,
}

impl DeepView for PersistedEndpointHealth {
    type V = HealthEntry;

    open spec fn deep_view(&self) -> HealthEntry {
        HealthEntry {
            chain_id: self.chain_id@,
            url: self.url@,
            reason: self.reason@,
            unavailable_until: self.unavailable_until,
        }
    }
}

/// The entries that are still in force at a time.
pub open spec fn in_force(entries: Map<Seq<char>, HealthEntry>, now: u64) -> Map<
    Seq<char>,
    HealthEntry,
> {
    Map::new(
        |key: Seq<char>| entries.contains_key(key) && entries[key].unavailable_until > now,
        |key: Seq<char>| entries[key],
    )
}

/// The entry of an endpoint that is taken to be dead until a time.
pub open spec fn dead_entry(chain_id: Seq<char>, url: Seq<char>, until: u64) -> HealthEntry {
    HealthEntry { chain_id, url, reason: "dead"@, unavailable_until: until }
}

/// The entries once an endpoint is taken to be dead until a time.
pub open spec fn with_dead(
    entries: Map<Seq<char>, HealthEntry>,
    chain_id: Seq<char>,
    url: Seq<char>,
    until: u64,
) -> Map<Seq<char>, HealthEntry> {
    entries.insert(key_of(chain_id, url), dead_entry(chain_id, url, until))
}

/// The entries without that of an endpoint.
pub open spec fn without(
    entries: Map<Seq<char>, HealthEntry>,
    chain_id: Seq<char>,
    url: Seq<char>,
) -> Map<Seq<char>, HealthEntry> {
    entries.remove(key_of(chain_id, url))
}

/// Whether there is an entry of an endpoint.
pub open spec fn is_kept(
    entries: Map<Seq<char>, HealthEntry>,
    chain_id: Seq<char>,
    url: Seq<char>,
) -> bool {
    entries.contains_key(key_of(chain_id, url))
}

/// The seconds for which an endpoint is still to be taken for dead, if it is.
pub open spec fn remaining(
    entries: Map<Seq<char>, HealthEntry>,
    chain_id: Seq<char>,
    url: Seq<char>,
    now: u64,
) -> Option<u64> {
    let key = key_of(chain_id, url);
    if entries.contains_key(key) && entries[key].unavailable_until > now {
        Some((entries[key].unavailable_until - now) as u64)
    } else {
        None
    }
}

/// A death that is cleared leaves no trace: of an endpoint of which nothing was kept, nothing is kept
/// when it was taken to be dead and then cleared, and to clear it once more changes nothing. In between
/// it is taken for dead for exactly as long as was said.
pub proof fn law_a_cleared_death_leaves_no_trace(
    entries: Map<Seq<char>, HealthEntry>,
    chain_id: Seq<char>,
    url: Seq<char>,
    cooldown: u64,
    now: u64,
    then: u64,
)
    requires
        !is_kept(entries, chain_id, url),
        now + cooldown <= u64::MAX,
    ensures
        ({
            let dead = with_dead(entries, chain_id, url, (now + cooldown) as u64);
            let cleared = without(dead, chain_id, url);
            &&& is_kept(dead, chain_id, url)
            &&& cooldown > 0 ==> remaining(dead, chain_id, url, now) == Some(cooldown)
            &&& cleared == entries
            &&& remaining(cleared, chain_id, url, then) is None
            &&& !is_kept(cleared, chain_id, url)
            &&& without(cleared, chain_id, url) == cleared
        }),
{
    let dead = with_dead(entries, chain_id, url, (now + cooldown) as u64);
    assert(without(dead, chain_id, url) =~= entries);
    assert(without(entries, chain_id, url) =~= entries);
}

/// The endpoints that were found dead, by key.
pub struct EndpointHealthStore {
    entries: StringMap<PersistedEndpointHealth>,
}

impl View for EndpointHealthStore {
    type V = Map<Seq<char>, HealthEntry>;

    closed spec fn view(&self) -> Map<Seq<char>, HealthEntry> {
        self.entries@
    }
}

impl EndpointHealthStore {
    /// The store that begins with the entries that were kept, as far as they are still in force.
    pub fn load(kept: StringMap<PersistedEndpointHealth>, now: u64) -> (r: EndpointHealthStore)
        ensures
            r@ == in_force(kept@, now),
    {
        let ghost before = kept@;
        let mut expired: Vec<String> = Vec::new();
        let n: usize = kept.len();
        let mut i: usize = 0;
        while i < n
            invariant
                i <= n == kept.key_list().len(),
                before == kept@,
                forall|j: int|
                    0 <= j < expired@.len() ==> before.contains_key(#[trigger] expired@[j]@)
                        && before[expired@[j]@].unavailable_until <= now,
                forall|j: int|
                    0 <= j < i && before[#[trigger] kept.key_list()[j]].unavailable_until <= now
                        ==> text::texts(expired@).contains(kept.key_list()[j]),
            decreases n - i,
        {
            let (key, entry) = kept.entry(i);
            if entry.unavailable_until <= now {
                let ghost found = expired@;
                expired.push(key.to_owned());
                proof {
                    assert(text::texts(expired@) =~= text::texts(found).push(key@));
                    assert(text::texts(expired@)[found.len() as int] == key@);
                    assert forall|j: int|
                        0 <= j < i && before[#[trigger] kept.key_list()[j]].unavailable_until
                            <= now implies text::texts(expired@).contains(kept.key_list()[j]) by {
                        let k = text::texts(found).index_of(kept.key_list()[j]);
                        assert(text::texts(expired@)[k] == kept.key_list()[j]);
                    }
                }
            }
            i += 1;
        }
        let mut entries = kept;
        let mut k: usize = 0;
        while k < expired.len()
            invariant
                k <= expired.len(),
                forall|j: int|
                    0 <= j < expired@.len() ==> before.contains_key(#[trigger] expired@[j]@)
                        && before[expired@[j]@].unavailable_until <= now,
                forall|key: Seq<char>| #[trigger]
                    entries@.contains_key(key) <==> before.contains_key(key) && !text::texts(
                        expired@.take(k as int),
                    ).contains(key),
                forall|key: Seq<char>| #[trigger]
                    entries@.contains_key(key) ==> entries@[key] == before[key],
            decreases expired.len() - k,
        {
            let ghost gone = text::texts(expired@.take(k as int));
            let ghost more = text::texts(expired@.take(k + 1));
            let ghost last = expired@[k as int]@;
            proof {
                assert(more =~= gone.push(last));
                assert forall|key: Seq<char>| #[trigger] more.contains(key) <==> gone.contains(key)
                    || key == last by {
                    if gone.contains(key) {
                        assert(more[gone.index_of(key)] == key);
                    }
                    assert(more[k as int] == last);
                }
            }
            let _ = entries.remove(expired[k].as_str());
            k += 1;
        }
        proof {
            assert(expired@.take(k as int) =~= expired@);
            assert forall|key: Seq<char>| #[trigger] entries@.contains_key(key) <==> in_force(
                before,
                now,
            ).contains_key(key) by {
                if before.contains_key(key) && before[key].unavailable_until <= now {
                    assert(kept.key_list().contains(key));
                    let j = kept.key_list().index_of(key);
                    assert(kept.key_list()[j] == key);
                }
                if text::texts(expired@).contains(key) {
                    let j = text::texts(expired@).index_of(key);
                    assert(expired@[j]@ == key);
                }
            }
            assert(entries@ =~= in_force(before, now));
        }
        EndpointHealthStore { entries }
    }

    /// The seconds for which an endpoint is still to be taken for dead, if it is, and whether the
    /// entries changed: an entry that is no longer in force goes.
    pub fn remaining_dead_duration(&mut self, chain_id: &str, url: &str, now: u64) -> (r: (
        Option<u64>,
        bool,
    ))
        ensures
            r.0 == remaining(old(self)@, chain_id@, url@, now),
            r.1 == (is_kept(old(self)@, chain_id@, url@) && r.0 is None),
            final(self)@ == (if r.1 {
                without(old(self)@, chain_id@, url@)
            } else {
                old(self)@
            }),
    {
        let key = endpoint_key(chain_id, url);
        let until: u64 = match self.entries.get(key.as_str()) {
            Some(entry) => entry.unavailable_until,
            None => {
                return (None, false);
            },
        };
        if until <= now {
            let _ = self.entries.remove(key.as_str());
            return (None, true);
        }
        (Some(until - now), false)
    }

    /// Takes an endpoint to be dead for a number of seconds from now.
    pub fn mark_dead(&mut self, chain_id: &str, url: &str, cooldown: u64, now: u64)
        requires
            now + cooldown <= u64::MAX,
        ensures
            final(self)@ == with_dead(old(self)@, chain_id@, url@, (now + cooldown) as u64),
    {
        let entry = PersistedEndpointHealth {
            chain_id: chain_id.to_owned(),
            url: url.to_owned(),
            reason: "dead".to_owned(),
            unavailable_until: now + cooldown,
        };
        let key = endpoint_key(chain_id, url);
        self.entries.insert(key, entry);
    }

    /// Drops what is kept of an endpoint, and says whether there was anything.
    pub fn clear(&mut self, chain_id: &str, url: &str) -> (r: bool)
        ensures
            r == is_kept(old(self)@, chain_id@, url@),
            final(self)@ == without(old(self)@, chain_id@, url@),
    {
        let key = endpoint_key(chain_id, url);
        self.entries.remove(key.as_str())
    }

    /// The entries.
    pub fn entries(&self) -> (r: &StringMap<PersistedEndpointHealth>)
        ensures
            r@ == self@,
    {
        &self.entries
    }
}

/// A time is so many seconds behind another as were said, in nanoseconds.
pub proof fn law_seconds_are_counted_in_nanoseconds(instant: u64, seconds: u64)
    ensures
        instant_after(instant, seconds) == instant + seconds * 1_000_000_000,
{
}

/// An endpoint's key is the chain's name and the address, with a line break between them.
pub proof fn law_a_key_is_chain_and_address(chain_id: Seq<char>, url: Seq<char>)
    ensures
        key_of(chain_id, url) == chain_id + seq!['\n'] + url,
{
    assert(key_of(chain_id, url) =~= chain_id + seq!['\n'] + url);
}

/// What is in force at a time is every entry that ends later, as it was, and no other.
pub proof fn law_what_ends_later_is_in_force(
    entries: Map<Seq<char>, HealthEntry>,
    now: u64,
    key: Seq<char>,
)
    ensures
        in_force(entries, now).contains_key(key) <==> entries.contains_key(key) && now
            < entries[key].unavailable_until,
        in_force(entries, now).contains_key(key) ==> in_force(entries, now)[key] == entries[key],
{
}

/// To take an endpoint for dead, or to clear it, changes its own entry and no other. A dead one is kept
/// with its chain, its address, the reason and the time.
pub proof fn law_marks_change_one_entry(
    entries: Map<Seq<char>, HealthEntry>,
    chain_id: Seq<char>,
    url: Seq<char>,
    until: u64,
    key: Seq<char>,
)
    ensures
        key == chain_id + seq!['\n'] + url ==> {
            &&& with_dead(entries, chain_id, url, until).contains_key(key)
            &&& with_dead(entries, chain_id, url, until)[key] == (HealthEntry {
                chain_id,
                url,
                reason: seq!['d', 'e', 'a', 'd'],
                unavailable_until: until,
            })
            &&& !without(entries, chain_id, url).contains_key(key)
            &&& is_kept(entries, chain_id, url) <==> entries.contains_key(key)
        },
        key != chain_id + seq!['\n'] + url ==> {
            &&& with_dead(entries, chain_id, url, until).contains_key(key) <==> entries.contains_key(
                key,
            )
            &&& without(entries, chain_id, url).contains_key(key) <==> entries.contains_key(key)
            &&& entries.contains_key(key) ==> with_dead(entries, chain_id, url, until)[key]
                == entries[key] && without(entries, chain_id, url)[key] == entries[key]
        },
{
    law_a_key_is_chain_and_address(chain_id, url);
    reveal_strlit("dead");
    assert("dead"@ =~= seq!['d', 'e', 'a', 'd']);
}

/// What remains of a death and the time that has passed make up the whole; what is over, or is not kept,
/// has nothing remaining.
pub proof fn law_what_remains_ends_when_the_death_ends(
    entries: Map<Seq<char>, HealthEntry>,
    chain_id: Seq<char>,
    url: Seq<char>,
    now: u64,
)
    ensures
        ({
            let key = chain_id + seq!['\n'] + url;
            match remaining(entries, chain_id, url, now) {
                Some(seconds) => entries.contains_key(key) && seconds > 0 && now + seconds
                    == entries[key].unavailable_until,
                None => !entries.contains_key(key) || entries[key].unavailable_until <= now,
            }
        }),
{
    law_a_key_is_chain_and_address(chain_id, url);
}

/// There is room on the clock as long as three hours from now can be written down.
pub proof fn law_there_is_room_for_three_hours(clock: Clock)
    ensures
        clock.has_room() <==> clock.unix + 10_800 <= u64::MAX,
{
}

/// An entry is seen as it is.
pub proof fn law_an_entry_is_seen_as_it_is(entry: PersistedEndpointHealth)
    ensures
        entry.deep_view() == (HealthEntry {
            chain_id: entry.chain_id@,
            url: entry.url@,
            reason: entry.reason@,
            unavailable_until: entry.unavailable_until,
        }),
{
}

} // verus!
