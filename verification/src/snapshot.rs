//! Snapshots: the log up to some event with the markets and a checksum of the
//! state, from which an engine can be rebuilt.
//!
//! A snapshot holds events, not books: replaying them always gives the books,
//! and the checksum tells whether it gave the right state.
use crate::clock::current_time_ms;
use crate::crypto::{hex_bytes, hex_encode, hex_text, lemma_hex_round_trip, sha256};
use crate::domain::market::MarketConfig;
use crate::engine::model::{entries, EngineModel};
use crate::engine::recovery::recoverable;
use crate::events::{copy_events, SequencedEvent};
use crate::keys::same_text;
use crate::replay::{try_replay, walked, Outcome, ReplayError, ReplayResult};
use crate::text::{append_decimal, decimal, decimal_value, is_digit, lemma_decimal, lemma_decimal_round_trip, parse_decimal};
use std::path::Path;
use vstd::prelude::*;
use vstd::utf8::encode_utf8;
use vstd::string::{StrSliceExecFns, StringExecFns};

verus! {

/// The version of the snapshot format.
pub const SNAPSHOT_SCHEMA_VERSION: u16 = 1;

/// A snapshot of an engine.
#[derive(Debug)]
pub struct Snapshot {
    /// Has to be [`SNAPSHOT_SCHEMA_VERSION`].
    pub schema_version: u16,
    /// The number of the last event in it.
    pub snapshot_seq: u64,
    /// The checksum of the state store, in hexadecimal notation.
    pub state_checksum: String,
    /// When the snapshot was taken.
    pub created_at_ms: u64,
    /// The log up to that event.
    pub events: Vec<SequencedEvent>,
    /// The registered markets.
    pub markets: Vec<MarketConfig>,
}

/// Why a snapshot was refused.
#[derive(Debug)]
pub enum SnapshotError {
    UnsupportedVersion { found: u16 },
    ChecksumMismatch { stored: String, computed: String },
    ReplayFailed(ReplayError),
}

impl SnapshotError {
    /// The text of [`SnapshotError::message`].
    pub open spec fn text(&self) -> Seq<char> {
        match self {
            SnapshotError::UnsupportedVersion { found } => "unsupported snapshot schema version "@ + decimal(
                *found as nat,
            ) + " (expected 1)"@,
            SnapshotError::ChecksumMismatch { stored, computed } => "checksum mismatch: stored "@ + stored@
                + ", computed "@ + computed@,
            SnapshotError::ReplayFailed(e) => "replay failed: "@ + e.text(),
        }
    }

    /// The error in words.
    pub fn message(&self) -> (s: String)
        ensures
            s@ == self.text(),
    {
        match self {
            SnapshotError::UnsupportedVersion { found } => {
                let mut s = "unsupported snapshot schema version ".to_owned();
                append_decimal(&mut s, *found as u64);
                s.append(" (expected 1)");
                s
            },
            SnapshotError::ChecksumMismatch { stored, computed } => {
                let mut s = "checksum mismatch: stored ".to_owned();
                s.append(stored.as_str());
                s.append(", computed ");
                s.append(computed.as_str());
                s
            },
            SnapshotError::ReplayFailed(e) => {
                let mut s = "replay failed: ".to_owned();
                s.append(e.message().as_str());
                s
            },
        }
    }
}

/// `snap` is a snapshot of the given log, markets and checksum.
pub open spec fn snapshot_of(
    snap: Snapshot,
    events: Seq<SequencedEvent>,
    markets: Seq<MarketConfig>,
    checksum: Seq<u8>,
) -> bool {
    &&& snap.schema_version == SNAPSHOT_SCHEMA_VERSION
    &&& snap.snapshot_seq == (if events.len() > 0 {
        events.last().seq_id
    } else {
        0
    })
    &&& snap.state_checksum@ == hex_text(checksum)
    &&& snap.events@ == events
    &&& snap.markets@ == markets
}

/// Take a snapshot of a log with its markets. `checksum` is the checksum of the
/// state store at the end of the log.
pub fn create_snapshot(events: &[SequencedEvent], markets: &[MarketConfig], checksum: [u8; 32]) -> (snap: Snapshot)
    ensures
        snapshot_of(snap, events@, markets@, checksum@),
{
    create_snapshot_at(events, markets, checksum, current_time_ms())
}

/// As [`create_snapshot`], at a given time.
pub fn create_snapshot_at(
    events: &[SequencedEvent],
    markets: &[MarketConfig],
    checksum: [u8; 32],
    created_at_ms: u64,
) -> (snap: Snapshot)
    ensures
        snapshot_of(snap, events@, markets@, checksum@),
        snap.created_at_ms == created_at_ms,
{
    let n: usize = events.len();
    let snapshot_seq: u64 = if n > 0 {
        events[n - 1].seq_id
    } else {
        0
    };
    let mut copies: Vec<MarketConfig> = Vec::new();
    let mut i: usize = 0;
    while i < markets.len()
        invariant
            i <= markets@.len(),
            copies@ == markets@.take(i as int),
        decreases markets@.len() - i,
    {
        copies.push(markets[i].clone());
        i = i + 1;
        proof {
            assert(copies@ =~= markets@.take(i as int));
        }
    }
    proof {
        assert(markets@.take(i as int) =~= markets@);
    }
    Snapshot {
        schema_version: SNAPSHOT_SCHEMA_VERSION,
        snapshot_seq,
        state_checksum: hex_encode(checksum.as_slice()),
        created_at_ms,
        events: copy_events(events),
        markets: copies,
    }
}

/// `r` is what loading `snap` comes to.
pub open spec fn loads(snap: Snapshot, r: Result<(ReplayResult, Vec<MarketConfig>, u64), SnapshotError>) -> bool {
    if snap.schema_version != SNAPSHOT_SCHEMA_VERSION {
        r matches Err(SnapshotError::UnsupportedVersion { found }) && found == snap.schema_version
    } else {
        match walked(entries(snap.events@)) {
            Outcome::Failed(e) => r matches Err(SnapshotError::ReplayFailed(found)) && found == e,
            Outcome::Overflow => false,
            Outcome::Done(w) => {
                let computed = hex_text(sha256(w.state.fingerprint()));
                if computed == snap.state_checksum@ {
                    r matches Ok((result, markets, seq)) && result.rebuilds(w, snap.events@.len()) && markets@
                        == snap.markets@ && seq == snap.snapshot_seq
                } else {
                    r matches Err(SnapshotError::ChecksumMismatch { stored, computed: found }) && stored@
                        == snap.state_checksum@ && found@ == computed
                }
            },
        }
    }
}

/// The numbers and quantities of loading `snap` fit in 64 bits.
pub open spec fn load_fits(snap: Snapshot) -> bool {
    snap.schema_version == SNAPSHOT_SCHEMA_VERSION ==> !(walked(entries(snap.events@)) is Overflow)
}

/// Rebuild what a snapshot holds: the replayed log, the markets, and the number
/// of the last event. The checksum of the rebuilt state has to be the stored one.
pub fn load_snapshot(snap: Snapshot) -> (r: Result<(ReplayResult, Vec<MarketConfig>, u64), SnapshotError>)
    requires
        load_fits(snap),
    ensures
        loads(snap, r),
{
    try_load_snapshot(snap).unwrap()
}

/// As [`load_snapshot`]; `None` where a quantity or a number does not fit in 64
/// bits.
pub fn try_load_snapshot(snap: Snapshot) -> (r: Option<Result<(ReplayResult, Vec<MarketConfig>, u64), SnapshotError>>)
    ensures
        match r {
            Some(result) => load_fits(snap) && loads(snap, result),
            None => !load_fits(snap),
        },
{
    if snap.schema_version != SNAPSHOT_SCHEMA_VERSION {
        return Some(Err(SnapshotError::UnsupportedVersion { found: snap.schema_version }));
    }
    let result = match try_replay(snap.events.as_slice()) {
        Some(Ok(result)) => result,
        Some(Err(e)) => {
            return Some(Err(SnapshotError::ReplayFailed(e)));
        },
        None => {
            return None;
        },
    };
    let computed = hex_encode(result.state.checksum().as_slice());
    if !same_text(computed.as_str(), snap.state_checksum.as_str()) {
        return Some(Err(SnapshotError::ChecksumMismatch { stored: snap.state_checksum, computed }));
    }
    Some(Ok((result, snap.markets, snap.snapshot_seq)))
}

/// A snapshot of a recoverable engine, taken with the checksum of its state
/// store, can be loaded.
pub proof fn law_engine_snapshot_loads(e: EngineModel, snap: Snapshot, events: Seq<SequencedEvent>, markets: Seq<MarketConfig>)
    requires
        recoverable(e),
        e.log == entries(events),
        snapshot_of(snap, events, markets, sha256(e.state.fingerprint())),
    ensures
        load_fits(snap),
        forall|r: Result<(ReplayResult, Vec<MarketConfig>, u64), SnapshotError>| #[trigger] loads(snap, r) ==> r is Ok,
{
    let w = walked(e.log)->Done_0;
    assert(w.state.fingerprint() == e.state.fingerprint());
}

/// A snapshot whose stored checksum is not the notation of the checksum of its
/// own log is not loaded.
pub proof fn law_wrong_checksum_refused(snap: Snapshot, r: Result<(ReplayResult, Vec<MarketConfig>, u64), SnapshotError>)
    requires
        walked(entries(snap.events@)) matches Outcome::Done(w) && snap.state_checksum@ != hex_text(
            sha256(w.state.fingerprint()),
        ),
        loads(snap, r),
    ensures
        r is Err,
{
}

/// The name of the snapshot file for the event `seq_id`.
pub open spec fn file_name(seq_id: u64) -> Seq<char> {
    "snapshot_"@ + decimal(seq_id as nat) + ".json"@
}

/// The number in the name of a snapshot file, if it is one.
pub open spec fn file_seq(name: Seq<char>) -> Option<u64> {
    if name.len() > 14 && name.take(9) == "snapshot_"@ && name.skip(name.len() - 5) == ".json"@ {
        decimal_value(name.subrange(9, name.len() - 5))
    } else {
        None
    }
}

/// The name of the snapshot file for an event.
pub fn snapshot_file_name(seq_id: u64) -> (name: String)
    ensures
        name@ == file_name(seq_id),
        file_seq(name@) == Some(seq_id),
{
    let mut name = "snapshot_".to_owned();
    append_decimal(&mut name, seq_id);
    name.append(".json");
    proof {
        law_file_name_round_trip(seq_id);
    }
    name
}

/// The number in the name of a snapshot file.
pub fn parse_snapshot_file_name(name: &str) -> (r: Option<u64>)
    ensures
        r == file_seq(name@),
{
    let n: usize = name.unicode_len();
    if n <= 14 {
        return None;
    }
    proof {
        assert(name@.subrange(0, 9) =~= name@.take(9));
        assert(name@.subrange(n - 5, n as int) =~= name@.skip(n - 5));
    }
    if !same_text(name.substring_char(0, 9), "snapshot_") {
        return None;
    }
    if !same_text(name.substring_char(n - 5, n), ".json") {
        return None;
    }
    parse_decimal(name.substring_char(9, n - 5))
}

/// The number in the name of a snapshot file is the one it was made of.
pub proof fn law_file_name_round_trip(seq_id: u64)
    ensures
        file_seq(file_name(seq_id)) == Some(seq_id),
{
    reveal_strlit("snapshot_");
    reveal_strlit(".json");
    let digits = decimal(seq_id as nat);
    let name = file_name(seq_id);
    lemma_decimal(seq_id as nat);
    lemma_decimal_round_trip(seq_id);
    assert(name.len() == 9 + digits.len() + 5);
    assert(name.take(9) =~= "snapshot_"@);
    assert(name.skip(name.len() - 5) =~= ".json"@);
    assert(name.subrange(9, name.len() - 5) =~= digits);
}

/// The place of the snapshot file with the highest number among `names`; the
/// first one where several have it. Names of other files are passed over.
pub fn find_latest_snapshot(names: &Vec<String>) -> (r: Option<usize>)
    ensures
        match r {
            Some(i) => {
                &&& i < names@.len()
                &&& file_seq(names@[i as int]@) matches Some(best) && forall|j: int|
                    #![trigger names@[j]]
                    0 <= j < names@.len() ==> (file_seq(names@[j]@) matches Some(seq) ==> seq <= best && (j < i
                        ==> seq < best))
            },
            None => forall|j: int| 0 <= j < names@.len() ==> file_seq((#[trigger] names@[j])@) is None,
        },
{
    let mut best: Option<(u64, usize)> = None;
    let mut i: usize = 0;
    while i < names.len()
        invariant
            i <= names@.len(),
            match best {
                Some((seq, at)) => {
                    &&& at < i
                    &&& file_seq(names@[at as int]@) == Some(seq)
                    &&& forall|j: int|
                        #![trigger names@[j]]
                        0 <= j < i ==> (file_seq(names@[j]@) matches Some(other) ==> other <= seq && (j < at
                            ==> other < seq))
                },
                None => forall|j: int| 0 <= j < i ==> file_seq((#[trigger] names@[j])@) is None,
            },
        decreases names@.len() - i,
    {
        match parse_snapshot_file_name(names[i].as_str()) {
            Some(seq) => {
                let higher: bool = match best {
                    Some((highest, _)) => seq > highest,
                    None => true,
                };
                if higher {
                    best = Some((seq, i));
                }
            },
            None => {},
        }
        i = i + 1;
    }
    match best {
        Some((_, at)) => Some(at),
        None => None,
    }
}

/// A name of letters, digits, underscores and dots, without a leading dot.
pub open spec fn plain_name(name: Seq<char>) -> bool {
    &&& name.len() > 0
    &&& name[0] != '.'
    &&& forall|i: int|
        0 <= i < name.len() ==> {
            let c = #[trigger] name[i];
            ('a' <= c <= 'z') || is_digit(c) || c == '_' || c == '.'
        }
}

/// `path` is `dir`, a separator, and `name`.
pub open spec fn separated(path: Seq<char>, dir: Seq<char>, name: Seq<char>) -> bool {
    path == dir + seq!['/'] + name || path == dir + seq!['\\'] + name
}

/// `path` is `dir`, at most one separator, and `name`.
pub open spec fn adjoins(path: Seq<char>, dir: Seq<char>, name: Seq<char>) -> bool {
    path == dir + name || separated(path, dir, name)
}

/// A directory that is written without a separator at its end, and without the
/// characters that are special on some platforms.
pub open spec fn plain_dir(dir: Seq<char>) -> bool {
    dir.len() > 0 && dir.last() != '/' && !dir.contains('\\') && !dir.contains(':')
}

/// `text` ends in `end`.
pub open spec fn ends_in(text: Seq<char>, end: Seq<char>) -> bool {
    text.len() >= end.len() && text.skip(text.len() - end.len()) == end
}

/// `std::path::Path::join` with a plain file name: the path ends in the name; where
/// the directory is written without backslashes, the path is the directory as it
/// was written, at most one separator, and the name; and where the directory is
/// plain, the separator is there. Which separator it is depends on the platform,
/// and so does what becomes of backslashes: that is left unsaid.
#[verifier::external_body]
fn join_path(dir: &str, name: &str) -> (path: String)
    requires
        plain_name(name@),
    ensures
        ends_in(path@, name@),
        !dir@.contains('\\') ==> adjoins(path@, dir@, name@),
        plain_dir(dir@) ==> separated(path@, dir@, name@),
{
    Path::new(dir).join(name).to_string_lossy().into_owned()
}

/// The path of the snapshot file for an event.
pub fn snapshot_path(dir: &str, seq_id: u64) -> (path: String)
    ensures
        ends_in(path@, file_name(seq_id)),
        !dir@.contains('\\') ==> adjoins(path@, dir@, file_name(seq_id)),
        plain_dir(dir@) ==> separated(path@, dir@, file_name(seq_id)),
{
    let name = snapshot_file_name(seq_id);
    proof {
        reveal_strlit("snapshot_");
        reveal_strlit(".json");
        lemma_decimal(seq_id as nat);
        let digits = decimal(seq_id as nat);
        assert forall|i: int| 0 <= i < name@.len() implies {
            let c = #[trigger] name@[i];
            ('a' <= c <= 'z') || is_digit(c) || c == '_' || c == '.'
        } by {
            if 9 <= i < 9 + digits.len() {
                assert(name@[i] == digits[i - 9]);
            }
        }
    }
    join_path(dir, name.as_str())
}

/// A snapshot is of version 1, holds the events and the markets it was taken of, each in
/// its place, and the number of the last event, and stores two hexadecimal digits for
/// each byte of the checksum.
pub proof fn law_snapshot_holds(
    snap: Snapshot,
    events: Seq<SequencedEvent>,
    markets: Seq<MarketConfig>,
    checksum: Seq<u8>,
    i: int,
)
    requires
        snapshot_of(snap, events, markets, checksum),
    ensures
        snap.schema_version == 1,
        snap.events@.len() == events.len(),
        0 <= i < events.len() ==> snap.events@[i] == events[i],
        snap.markets@.len() == markets.len(),
        0 <= i < markets.len() ==> snap.markets@[i] == markets[i],
        events.len() > 0 ==> snap.snapshot_seq == events[events.len() - 1].seq_id,
        events.len() == 0 ==> snap.snapshot_seq == 0,
        snap.state_checksum@.len() == 2 * checksum.len(),
        hex_bytes(encode_utf8(snap.state_checksum@)) == Some(checksum),
{
    lemma_hex_round_trip(checksum);
}

/// What comes of loading a snapshot. Where it is loaded, its version is 1, its log can be
/// replayed, the stored checksum is that of the state that the log tells, and what is
/// given back is that state, the markets of the snapshot and its number. Each refusal
/// tells what is so: a version other than 1; a log that cannot be replayed, and why; or a
/// stored checksum other than the one computed.
pub proof fn law_what_loading_tells(snap: Snapshot, r: Result<(ReplayResult, Vec<MarketConfig>, u64), SnapshotError>)
    requires
        loads(snap, r),
    ensures
        match r {
            Ok((result, markets, seq)) => {
                &&& snap.schema_version == 1
                &&& walked(entries(snap.events@)) matches Outcome::Done(w)
                &&& hex_bytes(encode_utf8(snap.state_checksum@)) == Some(sha256(result.state@.fingerprint()))
                &&& result.state@ == w.state
                &&& result.event_count == snap.events@.len()
                &&& result.last_seq_id == w.last_number()
                &&& markets@ == snap.markets@
                &&& seq == snap.snapshot_seq
            },
            Err(SnapshotError::UnsupportedVersion { found }) => found == snap.schema_version && found != 1,
            Err(SnapshotError::ReplayFailed(e)) => snap.schema_version == 1 && walked(entries(snap.events@))
                == Outcome::Failed(e),
            Err(SnapshotError::ChecksumMismatch { stored, computed }) => snap.schema_version == 1 && stored@
                == snap.state_checksum@ && computed@ != stored@ && (walked(entries(snap.events@)) matches Outcome::Done(
                w,
            ) && hex_bytes(encode_utf8(computed@)) == Some(sha256(w.state.fingerprint()))),
        },
{
    if let Outcome::Done(w) = walked(entries(snap.events@)) {
        lemma_hex_round_trip(sha256(w.state.fingerprint()));
    }
}

/// A snapshot whose version is 1, whose log can be replayed and whose stored checksum is
/// that of the state that the log tells is loaded.
pub proof fn law_sound_snapshot_loads(snap: Snapshot, r: Result<(ReplayResult, Vec<MarketConfig>, u64), SnapshotError>)
    requires
        snap.schema_version == 1,
        walked(entries(snap.events@)) matches Outcome::Done(w) && snap.state_checksum@ == hex_text(
            sha256(w.state.fingerprint()),
        ),
        loads(snap, r),
    ensures
        r is Ok,
{
}

/// A name is that of a snapshot file exactly when it is `snapshot_`, a number in decimal,
/// and `.json`; and then it is the file of that number.
pub proof fn law_snapshot_names(name: Seq<char>, number: Seq<char>)
    ensures
        file_seq("snapshot_"@ + number + ".json"@) == decimal_value(number),
        file_seq(name) is Some ==> exists|n: Seq<char>| #[trigger] ("snapshot_"@ + n + ".json"@) == name && decimal_value(n)
            == file_seq(name),
{
    reveal_strlit("snapshot_");
    reveal_strlit(".json");
    let whole = "snapshot_"@ + number + ".json"@;
    assert(whole.take(9) =~= "snapshot_"@);
    assert(whole.skip(whole.len() - 5) =~= ".json"@);
    assert(whole.subrange(9, whole.len() - 5) =~= number);
    if file_seq(name) is Some {
        let n = name.subrange(9, name.len() - 5);
        assert("snapshot_"@ + n + ".json"@ =~= name) by {
            assert(name =~= name.take(9) + n + name.skip(name.len() - 5));
        }
    }
}

} // verus!
