//! What a member knows of itself and of the others.
use crate::delta::{KeyValueView, MemberDelta, MemberDeltaView};
use crate::digest::MemberDigest;
use crate::order::{text_before, OrderedKey};
use crate::ordered_map::{entries_map, lemma_entries_map, lemma_key_at, OrderedMap};
use crate::text::{byte_string_chars, byte_string_from, byte_string_str};
use crate::types::{
    Heartbeat, MemberId, MemberIdView, Version, VersionedValue, VersionedValueView,
};
use bytestring::ByteString;
use vstd::prelude::*;

verus! {

/// A member's replicated state: a frozen set of key-values (versioned `1..N`) plus a
/// monotonically increasing heartbeat.
///
/// For the local ("self") member the key-values are complete. For a remote member we hold
/// the contiguous prefix `1..=max_version` received so far.
#[derive(Debug)]
pub struct MemberState {
    member_id: MemberId,
    heartbeat: Heartbeat,
    key_values: OrderedMap<ByteString, VersionedValue>,
    /// The highest version held; where the versions held are dense, also their number.
    max_version: Version,
}

/// Key-values by key.
pub type KeyValues = Map<Seq<char>, VersionedValueView>;

/// What a [`MemberState`] stands for.
#[verifier::ext_equal]
pub struct MemberStateView {
    pub member_id: MemberIdView,
    pub heartbeat: Heartbeat,
    pub key_values: KeyValues,
    pub max_version: Version,
}

/// Every version lies in `1..=max_version`, and no two key-values share one.
pub open spec fn versioned_up_to(key_values: KeyValues, max_version: Version) -> bool {
    &&& key_values.dom().finite()
    &&& forall|k: Seq<char>| #[trigger]
        key_values.contains_key(k) ==> 1 <= key_values[k].version <= max_version
    &&& forall|k: Seq<char>, l: Seq<char>|
        #![trigger key_values[k], key_values[l]]
        key_values.contains_key(k) && key_values.contains_key(l) && key_values[k].version
            == key_values[l].version ==> k == l
}

/// Some key-value has this version.
pub open spec fn has_version(key_values: KeyValues, version: Version) -> bool {
    exists|k: Seq<char>| #[trigger]
        key_values.contains_key(k) && key_values[k].version == version
}

/// Every version of `1..=max_version` is held.
pub open spec fn dense(key_values: KeyValues, max_version: Version) -> bool {
    forall|version: Version|
        1 <= version <= max_version ==> #[trigger] has_version(key_values, version)
}

impl MemberStateView {
    /// The versions are valid, and `max_version` is the highest of them (0 if there is
    /// none).
    pub open spec fn valid(self) -> bool {
        &&& versioned_up_to(self.key_values, self.max_version)
        &&& self.max_version > 0 ==> has_version(self.key_values, self.max_version)
    }

    /// A member of which only the identity is known.
    pub open spec fn unheard(member_id: MemberIdView) -> MemberStateView {
        MemberStateView {
            member_id,
            heartbeat: Heartbeat(0),
            key_values: Map::empty(),
            max_version: 0,
        }
    }

    /// The heartbeat and the version that a digest says of this member.
    pub open spec fn digest(self) -> MemberDigest {
        MemberDigest { heartbeat: self.heartbeat, max_version: self.max_version }
    }

    /// The state after one key-value of a delta.
    pub open spec fn apply_key_value(self, kv: KeyValueView) -> MemberStateView {
        if kv.version <= self.max_version {
            self
        } else {
            MemberStateView {
                key_values: self.key_values.insert(
                    kv.key,
                    VersionedValueView { value: kv.value, version: kv.version },
                ),
                max_version: kv.version,
                ..self
            }
        }
    }

    /// The state after key-values of a delta, one after the other.
    pub open spec fn apply_key_values(self, kvs: Seq<KeyValueView>) -> MemberStateView
        decreases kvs.len(),
    {
        if kvs.len() == 0 {
            self
        } else {
            self.apply_key_values(kvs.drop_last()).apply_key_value(kvs.last())
        }
    }

    /// The state after a delta. One that starts past the versions held would leave a gap,
    /// and is ignored.
    pub open spec fn apply_delta(self, member_delta: MemberDeltaView) -> MemberStateView {
        if member_delta.from_version_excluded > self.max_version {
            self
        } else {
            self.apply_key_values(member_delta.key_values)
        }
    }

    /// The state after a heartbeat of this member was heard of.
    pub open spec fn hear(self, heartbeat: Heartbeat) -> MemberStateView {
        if self.heartbeat.0 == 0 || heartbeat.0 > self.heartbeat.0 {
            MemberStateView { heartbeat, ..self }
        } else {
            self
        }
    }
}

/// What a map of versioned values stands for.
pub open spec fn value_views(key_values: Map<Seq<char>, VersionedValue>) -> KeyValues {
    key_values.map_values(|versioned: VersionedValue| versioned@)
}

/// The keys whose versions are greater than `floor`.
pub open spec fn stale_keys(key_values: KeyValues, floor: Version) -> Set<Seq<char>> {
    key_values.dom().filter(|k: Seq<char>| key_values[k].version > floor)
}

/// The key that has a version.
pub open spec fn key_of(key_values: KeyValues, version: Version) -> Seq<char> {
    choose|k: Seq<char>| #[trigger]
        key_values.contains_key(k) && key_values[k].version == version
}

/// The key-values with versions in `floor + 1 ..= top`, in version order.
pub open spec fn in_version_order(key_values: KeyValues, floor: nat, top: nat) -> Seq<KeyValueView>
    decreases top,
{
    if top <= floor {
        Seq::empty()
    } else {
        let below = in_version_order(key_values, floor, (top - 1) as nat);
        let version = top as Version;
        if has_version(key_values, version) {
            let key = key_of(key_values, version);
            below.push(KeyValueView { key, value: key_values[key].value, version })
        } else {
            below
        }
    }
}

/// The values that a list of pairs gives its keys; of two values for one key the later
/// wins.
pub open spec fn last_values(pairs: Seq<(Seq<char>, Seq<char>)>) -> Map<Seq<char>, Seq<char>>
    decreases pairs.len(),
{
    if pairs.len() == 0 {
        Map::empty()
    } else {
        last_values(pairs.drop_last()).insert(pairs.last().0, pairs.last().1)
    }
}

/// What a list of pairs stands for.
pub open spec fn pair_views(pairs: Seq<(String, String)>) -> Seq<(Seq<char>, Seq<char>)> {
    pairs.map_values(|pair: (String, String)| (pair.0@, pair.1@))
}

/// Key-values that hold `values`, numbered from 1 without a gap in key order.
pub open spec fn numbered(key_values: KeyValues, values: Map<Seq<char>, Seq<char>>) -> bool {
    &&& key_values.dom() == values.dom()
    &&& forall|k: Seq<char>| #[trigger]
        key_values.contains_key(k) ==> key_values[k].value == values[k] && 1
            <= key_values[k].version <= values.len()
    &&& forall|k: Seq<char>, l: Seq<char>|
        #![trigger key_values[k], key_values[l]]
        key_values.contains_key(k) && key_values.contains_key(l) && text_before(k, l)
            ==> key_values[k].version < key_values[l].version
}

impl View for MemberState {
    type V = MemberStateView;

    closed spec fn view(&self) -> MemberStateView {
        MemberStateView {
            member_id: self.member_id@,
            heartbeat: self.heartbeat,
            key_values: value_views(self.key_values@),
            max_version: self.max_version,
        }
    }
}

impl MemberState {
    /// The key-values are kept in key order.
    pub closed spec fn ordered(&self) -> bool {
        self.key_values.wf()
    }

    pub open spec fn wf(&self) -> bool {
        self.ordered() && self@.valid()
    }

    /// A member of which only the identity is known.
    pub fn new(member_id: MemberId) -> (state: MemberState)
        ensures
            state.wf(),
            state@ == MemberStateView::unheard(member_id@),
    {
        let state = MemberState {
            member_id,
            heartbeat: Heartbeat(0),
            key_values: OrderedMap::new(),
            max_version: 0,
        };
        assert(state@.key_values =~= Map::empty());
        state
    }

    pub fn member_id(&self) -> (member_id: &MemberId)
        ensures
            member_id@ == self@.member_id,
    {
        &self.member_id
    }

    pub fn heartbeat(&self) -> (heartbeat: Heartbeat)
        ensures
            heartbeat == self@.heartbeat,
    {
        self.heartbeat
    }

    pub fn max_version(&self) -> (version: Version)
        ensures
            version == self@.max_version,
    {
        self.max_version
    }

    /// Returns the value associated to `key`, if any.
    pub fn get(&self, key: &str) -> (value: Option<&str>)
        requires
            self.wf(),
        ensures
            match value {
                Some(value) => self@.key_values.contains_key(key@)
                    && self@.key_values[key@].value == value@,
                None => !self@.key_values.contains_key(key@),
            },
    {
        match self.key_values.get(&byte_string_from(key.to_owned())) {
            Some(versioned) => Some(byte_string_str(&versioned.value)),
            None => None,
        }
    }

    pub fn num_key_values(&self) -> (count: usize)
        requires
            self.wf(),
        ensures
            count == self@.key_values.len(),
    {
        assert(self@.key_values.dom() =~= self.key_values@.dom());
        self.key_values.len()
    }

    pub fn inc_heartbeat(&mut self)
        requires
            old(self).wf(),
            old(self)@.heartbeat.0 < u64::MAX,
        ensures
            final(self).wf(),
            final(self)@ == (MemberStateView {
                heartbeat: Heartbeat((old(self)@.heartbeat.0 + 1) as u64),
                ..old(self)@
            }),
    {
        self.heartbeat.inc();
    }

    /// Attempts to set the heartbeat of another member. The first heartbeat seen is
    /// recorded but not treated as an update. Returns `true` only on an update.
    pub fn try_set_heartbeat(&mut self, heartbeat: Heartbeat) -> (updated: bool)
        requires
            old(self).wf(),
        ensures
            final(self).wf(),
            final(self)@ == old(self)@.hear(heartbeat),
            updated == (0 < old(self)@.heartbeat.0 < heartbeat.0),
    {
        if self.heartbeat.0 == 0 {
            self.heartbeat = heartbeat;
            return false;
        }
        if heartbeat.0 > self.heartbeat.0 {
            self.heartbeat = heartbeat;
            true
        } else {
            false
        }
    }

    pub fn digest(&self) -> (digest: MemberDigest)
        ensures
            digest == self@.digest(),
    {
        MemberDigest { heartbeat: self.heartbeat, max_version: self.max_version }
    }

    /// Builds the local member's state from its immutable key-values, assigning dense
    /// versions `1..N` in (sorted) key order.
    pub fn with_key_values(member_id: MemberId, key_values: Vec<(String, String)>) -> (state:
        MemberState)
        ensures
            state.wf(),
            state@.member_id == member_id@,
            state@.heartbeat == Heartbeat(0),
            numbered(state@.key_values, last_values(pair_views(key_values@))),
            state@.max_version == last_values(pair_views(key_values@)).len(),
            dense(state@.key_values, state@.max_version),
    {
        let ghost pairs = pair_views(key_values@);
        // De-duplicate (last value wins) and sort by key.
        let mut sorted: OrderedMap<ByteString, ByteString> = OrderedMap::new();
        let len = key_values.len();
        let mut i: usize = 0;
        assert(pairs.take(0) =~= Seq::empty());
        assert(char_views(sorted@) =~= Map::empty());
        while i < len
            invariant
                i <= len,
                len == key_values@.len(),
                pairs == pair_views(key_values@),
                sorted.wf(),
                char_views(sorted@) == last_values(pairs.take(i as int)),
            decreases len - i,
        {
            let ghost before = sorted@;
            let key = byte_string_from(key_values[i].0.clone());
            let value = byte_string_from(key_values[i].1.clone());
            sorted.insert(key, value);
            proof {
                assert(pairs[i as int] == (key_values@[i as int].0@, key_values@[i as int].1@));
                assert(pairs.take(i + 1).drop_last() =~= pairs.take(i as int));
                assert(char_views(sorted@) =~= char_views(before).insert(
                    pairs[i as int].0,
                    pairs[i as int].1,
                ));
            }
            i = i + 1;
        }
        assert(pairs.take(len as int) =~= pairs);
        let ghost values = last_values(pairs);
        let ghost entries = sorted.entries();
        proof {
            lemma_entries_map(entries);
            assert(values.dom() =~= sorted@.dom());
        }
        let mut state = MemberState::new(member_id);
        assert(state.key_values@.dom() =~= state@.key_values.dom());
        let count = sorted.len();
        let mut i: usize = 0;
        while i < count
            invariant
                i <= count,
                count == entries.len(),
                count == values.len(),
                sorted.wf(),
                entries == sorted.entries(),
                values == char_views(sorted@),
                state.member_id@ == member_id@,
                state.heartbeat == Heartbeat(0),
                state.key_values.wf(),
                state.max_version == i,
                forall|k: Seq<char>| #[trigger]
                    state.key_values@.contains_key(k) ==> {
                        let versioned = state.key_values@[k];
                        &&& 1 <= versioned.version <= i
                        &&& entries[versioned.version - 1].0.key() == k
                        &&& byte_string_chars(versioned.value) == byte_string_chars(
                            entries[versioned.version - 1].1,
                        )
                    },
                forall|j: int|
                    0 <= j < i ==> {
                        &&& state.key_values@.contains_key(#[trigger] entries[j].0.key())
                        &&& state.key_values@[entries[j].0.key()].version == j + 1
                    },
            decreases count - i,
        {
            let version: Version = i as Version + 1;
            let key = sorted.key_at(i).clone();
            let value = sorted.value_at(i).clone();
            proof {
                assert(key.key() == entries[i as int].0.key());
                assert forall|j: int| 0 <= j < i implies #[trigger] entries[j].0.key()
                    != key.key() by {
                    if entries[j].0.key() == key.key() {
                        lemma_key_at(entries, j, i as int);
                    }
                }
            }
            state.key_values.insert(key, VersionedValue::new(value, version));
            state.max_version = version;
            i = i + 1;
        }
        proof {
            lemma_entries_map(entries);
            let held = state@.key_values;
            assert(held.dom() =~= values.dom()) by {
                assert forall|k: Seq<char>| values.contains_key(k) implies held.contains_key(k) by {
                    let j = choose|j: int|
                        0 <= j < entries.len() && #[trigger] entries[j].0.key() == k;
                    assert(state.key_values@.contains_key(entries[j].0.key()));
                }
                assert forall|k: Seq<char>| held.contains_key(k) implies values.contains_key(k) by {
                    assert(state.key_values@.contains_key(k));
                    let j = state.key_values@[k].version - 1;
                    assert(sorted@.contains_key(entries[j].0.key()));
                }
            }
            assert forall|k: Seq<char>| #[trigger] held.contains_key(k) implies held[k].value
                == values[k] && 1 <= held[k].version <= values.len() by {
                assert(state.key_values@.contains_key(k));
                let j = state.key_values@[k].version - 1;
                assert(sorted@[entries[j].0.key()] == entries[j].1);
            }
            assert forall|k: Seq<char>, l: Seq<char>|
                #![trigger held[k], held[l]]
                held.contains_key(k) && held.contains_key(l) && text_before(k, l) implies held[k].version
                < held[l].version by {
                assert(state.key_values@.contains_key(k));
                assert(state.key_values@.contains_key(l));
                let i = held[k].version - 1;
                let j = held[l].version - 1;
                ByteString::before_irreflexive(k);
                if j < i {
                    assert(ByteString::before(entries[j].0.key(), entries[i].0.key()));
                    ByteString::before_transitive(k, l, k);
                }
            }
            assert forall|version: Version|
                1 <= version <= state@.max_version implies #[trigger] has_version(
                held,
                version,
            ) by {
                let k = entries[version - 1].0.key();
                assert(state.key_values@.contains_key(k));
                assert(held.contains_key(k));
            }
            assert(versioned_up_to(held, state@.max_version)) by {
                assert(held.dom().finite());
                assert forall|k: Seq<char>, l: Seq<char>|
                    #![trigger held[k], held[l]]
                    held.contains_key(k) && held.contains_key(l) && held[k].version
                        == held[l].version implies k == l by {
                    assert(state.key_values@.contains_key(k));
                    assert(state.key_values@.contains_key(l));
                }
            }
        }
        state
    }

    /// All `(key, value)` pairs, in key order.
    pub fn key_values(&self) -> (pairs: Vec<(&str, &str)>)
        requires
            self.wf(),
        ensures
            pairs@.len() == self@.key_values.len(),
            forall|i: int|
                0 <= i < pairs@.len() ==> {
                    &&& self@.key_values.contains_key((#[trigger] pairs@[i]).0@)
                    &&& self@.key_values[pairs@[i].0@].value == pairs@[i].1@
                },
            forall|i: int, j: int|
                0 <= i < j < pairs@.len() ==> text_before(
                    (#[trigger] pairs@[i]).0@,
                    (#[trigger] pairs@[j]).0@,
                ),
    {
        let ghost entries = self.key_values.entries();
        proof {
            lemma_entries_map(entries);
            assert(self@.key_values.dom() =~= self.key_values@.dom());
        }
        let mut pairs: Vec<(&str, &str)> = Vec::new();
        let len = self.key_values.len();
        let mut i: usize = 0;
        while i < len
            invariant
                i <= len,
                len == entries.len(),
                entries == self.key_values.entries(),
                pairs@.len() == i,
                forall|j: int|
                    0 <= j < i ==> {
                        &&& (#[trigger] pairs@[j]).0@ == entries[j].0.key()
                        &&& pairs@[j].1@ == byte_string_chars(entries[j].1.value)
                    },
            decreases len - i,
        {
            pairs.push(
                (
                    byte_string_str(self.key_values.key_at(i)),
                    byte_string_str(&self.key_values.value_at(i).value),
                ),
            );
            i = i + 1;
        }
        proof {
            assert forall|i: int| 0 <= i < pairs@.len() implies {
                &&& self@.key_values.contains_key((#[trigger] pairs@[i]).0@)
                &&& self@.key_values[pairs@[i].0@].value == pairs@[i].1@
            } by {
                assert(self.key_values@.contains_key(entries[i].0.key()));
            }
        }
        pairs
    }

    /// The key-values whose version is strictly greater than `floor_version`, in key order.
    pub fn stale_key_values(&self, floor_version: Version) -> (stale: Vec<(&str, &VersionedValue)>)
        requires
            self.wf(),
        ensures
            stale@.len() == stale_keys(self@.key_values, floor_version).len(),
            forall|i: int|
                0 <= i < stale@.len() ==> {
                    &&& self@.key_values.contains_key((#[trigger] stale@[i]).0@)
                    &&& self@.key_values[stale@[i].0@] == stale@[i].1@
                    &&& stale@[i].1.version > floor_version
                },
            forall|k: Seq<char>| #[trigger]
                self@.key_values.contains_key(k) && self@.key_values[k].version > floor_version
                    ==> exists|i: int| 0 <= i < stale@.len() && (#[trigger] stale@[i]).0@ == k,
            forall|i: int, j: int|
                0 <= i < j < stale@.len() ==> text_before(
                    (#[trigger] stale@[i]).0@,
                    (#[trigger] stale@[j]).0@,
                ),
    {
        let ghost entries = self.key_values.entries();
        let ghost held = self@.key_values;
        proof {
            lemma_entries_map(entries);
        }
        let mut stale: Vec<(&str, &VersionedValue)> = Vec::new();
        let len = self.key_values.len();
        let mut i: usize = 0;
        while i < len
            invariant
                i <= len,
                len == entries.len(),
                self.wf(),
                entries == self.key_values.entries(),
                held == self@.key_values,
                forall|j: int|
                    0 <= j < entries.len() ==> {
                        &&& self.key_values@.contains_key(#[trigger] entries[j].0.key())
                        &&& self.key_values@[entries[j].0.key()] == entries[j].1
                    },
                forall|m: int|
                    0 <= m < stale@.len() ==> {
                        &&& held.contains_key((#[trigger] stale@[m]).0@)
                        &&& held[stale@[m].0@] == stale@[m].1@
                        &&& stale@[m].1.version > floor_version
                        &&& i < len ==> text_before(stale@[m].0@, entries[i as int].0.key())
                    },
                forall|j: int|
                    0 <= j < i && (#[trigger] entries[j]).1.version > floor_version ==> exists|m: int|
                        0 <= m < stale@.len() && (#[trigger] stale@[m]).0@ == entries[j].0.key(),
                forall|m: int, n: int|
                    0 <= m < n < stale@.len() ==> text_before(
                        (#[trigger] stale@[m]).0@,
                        (#[trigger] stale@[n]).0@,
                    ),
            decreases len - i,
        {
            let ghost before = stale@;
            let versioned = self.key_values.value_at(i);
            if versioned.version > floor_version {
                let key = byte_string_str(self.key_values.key_at(i));
                stale.push((key, versioned));
                proof {
                    assert(self.key_values@.contains_key(entries[i as int].0.key()));
                    assert forall|j: int|
                        0 <= j < i + 1 && (#[trigger] entries[j]).1.version
                            > floor_version implies exists|m: int|
                        0 <= m < stale@.len() && (#[trigger] stale@[m]).0@ == entries[j].0.key() by {
                        if j < i {
                            let m = choose|m: int|
                                0 <= m < before.len() && (#[trigger] before[m]).0@
                                    == entries[j].0.key();
                            assert(stale@[m] == before[m]);
                        } else {
                            assert(stale@[before.len() as int].0@ == entries[j].0.key());
                        }
                    }
                }
            }
            proof {
                if i + 1 < len {
                    assert forall|m: int| 0 <= m < stale@.len() implies text_before(
                        (#[trigger] stale@[m]).0@,
                        entries[i + 1].0.key(),
                    ) by {
                        assert(ByteString::before(
                            entries[i as int].0.key(),
                            entries[i + 1].0.key(),
                        ));
                        if m < before.len() {
                            ByteString::before_transitive(
                                stale@[m].0@,
                                entries[i as int].0.key(),
                                entries[i + 1].0.key(),
                            );
                        }
                    }
                }
            }
            i = i + 1;
        }
        proof {
            lemma_entries_map(entries);
            assert forall|k: Seq<char>| #[trigger]
                held.contains_key(k) && held[k].version > floor_version implies exists|m: int|
                0 <= m < stale@.len() && (#[trigger] stale@[m]).0@ == k by {
                assert(self.key_values@.contains_key(k));
                let j = choose|j: int|
                    0 <= j < entries.len() && #[trigger] entries[j].0.key() == k;
                assert(entries[j].1.version > floor_version);
            }
            let keys = stale@.map_values(|kv: (&str, &VersionedValue)| kv.0@);
            assert(keys.no_duplicates()) by {
                assert forall|m: int, n: int| 0 <= m < n < keys.len() implies keys[m] != keys[n] by {
                    assert(text_before(stale@[m].0@, stale@[n].0@));
                    ByteString::before_irreflexive(keys[m]);
                }
            }
            keys.unique_seq_to_set();
            assert(keys.to_set() =~= stale_keys(held, floor_version)) by {
                assert forall|k: Seq<char>| stale_keys(held, floor_version).contains(
                    k,
                ) implies keys.to_set().contains(k) by {
                    assert(held.contains_key(k));
                    let m = choose|m: int| 0 <= m < stale@.len() && (#[trigger] stale@[m]).0@ == k;
                    assert(keys[m] == k);
                }
                assert forall|k: Seq<char>| keys.to_set().contains(k) implies stale_keys(
                    held,
                    floor_version,
                ).contains(k) by {
                    let m = choose|m: int| 0 <= m < keys.len() && keys[m] == k;
                    assert(held.contains_key(stale@[m].0@));
                }
            }
        }
        stale
    }

    /// Applies a member delta, extending our prefix. Returns `true` if any new key-value
    /// was applied.
    pub fn apply_delta(&mut self, member_delta: &MemberDelta) -> (applied: bool)
        requires
            old(self).wf(),
        ensures
            final(self).wf(),
            final(self)@ == old(self)@.apply_delta(member_delta@),
            applied == (final(self)@.max_version > old(self)@.max_version),
    {
        if member_delta.from_version_excluded > self.max_version {
            // The delta starts past our prefix: applying it would leave a gap. This can
            // happen with out-of-order/duplicate datagrams; ignore it.
            return false;
        }
        let ghost before = self@;
        let ghost kvs = member_delta@.key_values;
        let mut applied = false;
        let len = member_delta.key_values.len();
        let mut i: usize = 0;
        assert(kvs.take(0) =~= Seq::empty());
        while i < len
            invariant
                i <= len,
                len == member_delta.key_values@.len(),
                kvs == member_delta@.key_values,
                self.wf(),
                self@ == before.apply_key_values(kvs.take(i as int)),
                self.max_version >= before.max_version,
                applied == (self.max_version > before.max_version),
            decreases len - i,
        {
            let ghost current = self@;
            let key_value = &member_delta.key_values[i];
            proof {
                assert(kvs[i as int] == key_value@);
                assert(kvs.take(i + 1).drop_last() =~= kvs.take(i as int));
                lemma_apply_key_value(current, kvs[i as int]);
            }
            if key_value.version > self.max_version {
                self.key_values.insert(
                    key_value.key.clone(),
                    VersionedValue::new(key_value.value.clone(), key_value.version),
                );
                self.max_version = key_value.version;
                applied = true;
                assert(self@ =~= current.apply_key_value(kvs[i as int]));
            }
            i = i + 1;
        }
        assert(kvs.take(len as int) =~= kvs);
        applied
    }
}

impl Clone for MemberState {
    fn clone(&self) -> (copy: Self)
        ensures
            copy@ == self@,
            self.wf() ==> copy.wf(),
    {
        let ghost entries = self.key_values.entries();
        let mut key_values: OrderedMap<ByteString, VersionedValue> = OrderedMap::new();
        let len = self.key_values.len();
        let mut i: usize = 0;
        assert(entries.take(0) =~= Seq::empty());
        while i < len
            invariant
                i <= len,
                len == entries.len(),
                entries == self.key_values.entries(),
                key_values.wf(),
                value_views(key_values@) == value_views(entries_map(entries.take(i as int))),
            decreases len - i,
        {
            let ghost before = key_values@;
            let key = self.key_values.key_at(i).clone();
            let versioned = self.key_values.value_at(i).clone();
            key_values.insert(key, versioned);
            proof {
                let shorter = entries.take(i as int);
                assert(entries.take(i + 1).drop_last() =~= shorter);
                assert(value_views(key_values@) =~= value_views(before).insert(
                    key.key(),
                    versioned@,
                ));
                assert(value_views(entries_map(entries.take(i + 1))) =~= value_views(
                    entries_map(shorter),
                ).insert(key.key(), versioned@));
            }
            i = i + 1;
        }
        assert(entries.take(len as int) =~= entries);
        MemberState {
            member_id: self.member_id.clone(),
            heartbeat: self.heartbeat,
            key_values,
            max_version: self.max_version,
        }
    }
}

/// What a map of strings stands for.
spec fn char_views(values: Map<Seq<char>, ByteString>) -> Map<Seq<char>, Seq<char>> {
    values.map_values(|value: ByteString| byte_string_chars(value))
}

/// Applying a key-value keeps a state valid.
pub proof fn lemma_apply_key_value(state: MemberStateView, kv: KeyValueView)
    requires
        state.valid(),
    ensures
        state.apply_key_value(kv).valid(),
{
    if kv.version > state.max_version {
        let after = state.apply_key_value(kv);
        assert(after.key_values.contains_key(kv.key));
        assert forall|k: Seq<char>| #[trigger] after.key_values.contains_key(k) implies 1
            <= after.key_values[k].version <= after.max_version by {
            if k != kv.key {
                assert(state.key_values.contains_key(k));
            }
        }
        assert forall|k: Seq<char>, l: Seq<char>|
            #![trigger after.key_values[k], after.key_values[l]]
            after.key_values.contains_key(k) && after.key_values.contains_key(l)
                && after.key_values[k].version == after.key_values[l].version implies k == l by {
            if k != kv.key {
                assert(state.key_values.contains_key(k));
            }
            if l != kv.key {
                assert(state.key_values.contains_key(l));
            }
            if k != kv.key && l != kv.key {
                assert(state.key_values[k].version == state.key_values[l].version);
            }
        }
    }
}

/// Applying a delta keeps a state valid, never lowers its version, and leaves the identity
/// and the heartbeat alone.
pub proof fn lemma_apply_key_values(state: MemberStateView, kvs: Seq<KeyValueView>)
    requires
        state.valid(),
    ensures
        state.apply_key_values(kvs).valid(),
        state.apply_key_values(kvs).member_id == state.member_id,
        state.apply_key_values(kvs).heartbeat == state.heartbeat,
        state.apply_key_values(kvs).max_version >= state.max_version,
    decreases kvs.len(),
{
    if kvs.len() > 0 {
        lemma_apply_key_values(state, kvs.drop_last());
        lemma_apply_key_value(state.apply_key_values(kvs.drop_last()), kvs.last());
    }
}

} // verus!
