//! Leaderboard snapshots and the personal-best differ.
//!
//! A snapshot is an ordered list of entries, one per participant, captured at
//! one instant. Diffing a baseline snapshot against a newer one yields the
//! ordered personal-best events that the newer snapshot introduces.

use vstd::prelude::*;

verus! {

/// One participant's ranked record at a capture instant.
///
/// `name` holds the display name as UTF-8 bytes, and `score_bits` holds the
/// IEEE 754 single-precision bit pattern of the score exactly as it stands in
/// the cache encoding. The library never performs floating-point arithmetic:
/// everything it decides about a score is decided on the bit pattern.
#[derive(Debug)]
pub struct Entry {
    /// 1-based position on the board at capture time.
    pub rank: u16,
    /// Display name as UTF-8 bytes; the cache encoding bounds it to 255 bytes.
    pub name: Vec<u8>,
    /// Stable identity of the participant: the join key across snapshots.
    pub user_id: u32,
    /// Identity of the scored attempt behind this entry: the deduplication key.
    pub run_id: u32,
    /// IEEE 754 single-precision bit pattern of the score.
    pub score_bits: u32,
}

/// Mathematical model of an [`Entry`].
#[verifier::ext_equal]
pub struct EntryV {
    pub rank: u16,
    pub name: Seq<u8>,
    pub user_id: u32,
    pub run_id: u32,
    pub score_bits: u32,
}

impl View for Entry {
    type V = EntryV;

    open spec fn view(&self) -> EntryV {
        EntryV {
            rank: self.rank,
            name: self.name@,
            user_id: self.user_id,
            run_id: self.run_id,
            score_bits: self.score_bits,
        }
    }
}

/// The models of a sequence of entries.
pub open spec fn entry_views(s: Seq<Entry>) -> Seq<EntryV> {
    s.map_values(|e: Entry| e@)
}

impl Entry {
    /// True when the two entries belong to the same participant.
    pub fn same_user(&self, other: &Self) -> (r: bool)
        ensures
            r == (self.user_id == other.user_id),
    {
        self.user_id == other.user_id
    }

    /// An owned copy of this entry, equal to it in the model.
    pub fn duplicate(&self) -> (r: Entry)
        ensures
            r@ == self@,
    {
        let r = Entry {
            rank: self.rank,
            name: copy_bytes(&self.name),
            user_id: self.user_id,
            run_id: self.run_id,
            score_bits: self.score_bits,
        };
        assert(r@ =~= self@);
        r
    }
}

/// True when no two entries of the sequence share a `user_id`. Every snapshot
/// is expected to satisfy this: at most one ranked entry per participant.
pub open spec fn unique_user_ids(s: Seq<EntryV>) -> bool {
    forall|i: int, j: int| 0 <= i < j < s.len() ==> s[i].user_id != s[j].user_id
}

/// True when some entry of the sequence belongs to the given participant.
pub open spec fn has_user(s: Seq<EntryV>, uid: u32) -> bool {
    exists|i: int| 0 <= i < s.len() && s[i].user_id == uid
}

/// An index of the participant's entry in the sequence.
pub open spec fn user_index(s: Seq<EntryV>, uid: u32) -> int {
    choose|i: int| 0 <= i < s.len() && s[i].user_id == uid
}

/// The participant's entry in the sequence.
pub open spec fn user_entry(s: Seq<EntryV>, uid: u32) -> EntryV {
    s[user_index(s, uid)]
}

/// A whole leaderboard snapshot: an ordered list of entries (ascending rank,
/// as the source reported them) and the capture instant in seconds.
#[derive(Debug)]
pub struct Leaderboard {
    /// Capture instant, in seconds.
    pub timestamp_secs: u64,
    /// Entries in the source's own rank order.
    pub entries: Vec<Entry>,
}

/// Mathematical model of a [`Leaderboard`].
#[verifier::ext_equal]
pub struct LeaderboardV {
    pub timestamp_secs: u64,
    pub entries: Seq<EntryV>,
}

impl View for Leaderboard {
    type V = LeaderboardV;

    open spec fn view(&self) -> LeaderboardV {
        LeaderboardV { timestamp_secs: self.timestamp_secs, entries: entry_views(self.entries@) }
    }
}

/// One detected personal best: the participant's entry in the new snapshot,
/// with the entry in the baseline when the participant already stood there.
#[derive(Debug)]
pub struct Pb {
    /// The participant's baseline entry; `None` on a first appearance.
    pub old: Option<Entry>,
    /// The participant's entry in the new snapshot.
    pub new: Entry,
}

/// Mathematical model of a [`Pb`].
#[verifier::ext_equal]
pub struct PbV {
    pub old: Option<EntryV>,
    pub new: EntryV,
}

impl View for Pb {
    type V = PbV;

    open spec fn view(&self) -> PbV {
        PbV {
            old: match self.old {
                Some(ref e) => Some(e@),
                None => None,
            },
            new: self.new@,
        }
    }
}

/// The models of a sequence of events.
pub open spec fn pb_views(s: Seq<Pb>) -> Seq<PbV> {
    s.map_values(|p: Pb| p@)
}

/// True when the new entry must yield an event against the baseline: its
/// participant is new to the board, or stands there with a different run.
/// A matching run is the same achievement observed twice and is suppressed,
/// whatever its score or rank now says.
pub open spec fn emits(old: Seq<EntryV>, e: EntryV) -> bool {
    !has_user(old, e.user_id) || user_entry(old, e.user_id).run_id != e.run_id
}

/// The event that a new entry yields against the baseline.
pub open spec fn event_for(old: Seq<EntryV>, e: EntryV) -> PbV {
    PbV {
        old: if has_user(old, e.user_id) {
            Some(user_entry(old, e.user_id))
        } else {
            None
        },
        new: e,
    }
}

/// The ordered events of diffing a baseline against a new snapshot: one event
/// per new entry that emits, in the new snapshot's own order.
pub open spec fn spec_diff(old: Seq<EntryV>, new: Seq<EntryV>) -> Seq<PbV>
    decreases new.len(),
{
    if new.len() == 0 {
        Seq::empty()
    } else {
        let head = if emits(old, new[0]) {
            seq![event_for(old, new[0])]
        } else {
            Seq::<PbV>::empty()
        };
        head + spec_diff(old, new.drop_first())
    }
}

/// Finds the index of the participant's entry, scanning in order.
fn find_user(entries: &Vec<Entry>, uid: u32) -> (r: Option<usize>)
    ensures
        match r {
            Some(k) => k < entries@.len() && entries@[k as int].user_id == uid,
            None => !has_user(entry_views(entries@), uid),
        },
{
    let mut i: usize = 0;
    while i < entries.len()
        invariant
            i <= entries@.len(),
            forall|j: int| 0 <= j < i ==> entries@[j].user_id != uid,
        decreases entries@.len() - i,
    {
        if entries[i].user_id == uid {
            return Some(i);
        }
        i = i + 1;
    }
    assert(forall|j: int|
        0 <= j < entry_views(entries@).len() ==> entry_views(entries@)[j].user_id != uid);
    None
}

/// Appending one entry to the new snapshot appends its event, if it emits.
proof fn lemma_spec_diff_push(old: Seq<EntryV>, s: Seq<EntryV>, e: EntryV)
    ensures
        spec_diff(old, s.push(e)) == spec_diff(old, s) + (if emits(old, e) {
            seq![event_for(old, e)]
        } else {
            Seq::<PbV>::empty()
        }),
    decreases s.len(),
{
    let tail = if emits(old, e) {
        seq![event_for(old, e)]
    } else {
        Seq::<PbV>::empty()
    };
    if s.len() == 0 {
        assert(s.push(e)[0] == e);
        assert(s =~= Seq::<EntryV>::empty());
        assert(s.push(e).drop_first() =~= s);
        assert(spec_diff(old, s) == Seq::<PbV>::empty());
        assert(spec_diff(old, s.push(e)) == tail + spec_diff(old, s));
        assert(tail + spec_diff(old, s) =~= spec_diff(old, s) + tail);
    } else {
        assert(s.push(e)[0] == s[0]);
        assert(s.push(e).drop_first() =~= s.drop_first().push(e));
        lemma_spec_diff_push(old, s.drop_first(), e);
        let head = if emits(old, s[0]) {
            seq![event_for(old, s[0])]
        } else {
            Seq::<PbV>::empty()
        };
        assert(spec_diff(old, s.push(e)) == head + spec_diff(old, s.drop_first().push(e)));
        assert(spec_diff(old, s) == head + spec_diff(old, s.drop_first()));
        assert(head + (spec_diff(old, s.drop_first()) + tail) =~= (head + spec_diff(
            old,
            s.drop_first(),
        )) + tail);
    }
}

impl Pb {
    /// Packs a baseline entry and a new entry into one event.
    fn new_event(old: Option<Entry>, new: Entry) -> (r: Pb)
        ensures
            r.old == old,
            r.new == new,
    {
        Pb { old, new }
    }

    /// Diffs a baseline entry list against a new one.
    ///
    /// Walks the new entries in their given order; a participant missing from
    /// the baseline yields an event with no previous entry, a participant
    /// whose run differs yields an event carrying the baseline entry, and a
    /// participant with the same run yields nothing. Participants that only
    /// the baseline holds yield nothing: disappearance is not reported.
    pub fn diff(old: &Vec<Entry>, new: &Vec<Entry>) -> (r: Vec<Pb>)
        requires
            unique_user_ids(entry_views(old@)),
            unique_user_ids(entry_views(new@)),
        ensures
            pb_views(r@) == spec_diff(entry_views(old@), entry_views(new@)),
    {
        let ghost oldv = entry_views(old@);
        let ghost newv = entry_views(new@);
        let mut out: Vec<Pb> = Vec::new();
        let mut i: usize = 0;
        while i < new.len()
            invariant
                i <= new@.len(),
                oldv == entry_views(old@),
                newv == entry_views(new@),
                unique_user_ids(oldv),
                pb_views(out@) == spec_diff(oldv, newv.take(i as int)),
            decreases new@.len() - i,
        {
            let ghost prefix = newv.take(i as int);
            let ghost e = newv[i as int];
            let entry = &new[i];
            match find_user(old, entry.user_id) {
                Some(k) => {
                    proof {
                        assert(oldv[k as int].user_id == e.user_id);
                        let w = user_index(oldv, e.user_id);
                        assert(0 <= w < oldv.len() && oldv[w].user_id == e.user_id);
                        assert(w == k as int);
                        assert(user_entry(oldv, e.user_id) == oldv[k as int]);
                    }
                    if old[k].run_id != entry.run_id {
                        out.push(Pb::new_event(Some(old[k].duplicate()), entry.duplicate()));
                        proof {
                            assert(emits(oldv, e));
                            assert(pb_views(out@) =~= spec_diff(oldv, prefix) + seq![
                                event_for(oldv, e),
                            ]);
                        }
                    } else {
                        proof {
                            assert(!emits(oldv, e));
                        }
                    }
                },
                None => {
                    out.push(Pb::new_event(None, entry.duplicate()));
                    proof {
                        assert(emits(oldv, e));
                        assert(pb_views(out@) =~= spec_diff(oldv, prefix) + seq![
                            event_for(oldv, e),
                        ]);
                    }
                },
            }
            proof {
                lemma_spec_diff_push(oldv, prefix, e);
                assert(prefix.push(e) =~= newv.take(i as int + 1));
                if !emits(oldv, e) {
                    assert(spec_diff(oldv, prefix) + Seq::<PbV>::empty() =~= spec_diff(
                        oldv,
                        prefix,
                    ));
                }
            }
            i = i + 1;
        }
        proof {
            assert(newv.take(newv.len() as int) =~= newv);
        }
        out
    }
}

impl Leaderboard {
    /// The ordered personal-best events of this baseline against a newer
    /// snapshot.
    pub fn pbs(&self, new: &Leaderboard) -> (r: Vec<Pb>)
        requires
            unique_user_ids(self@.entries),
            unique_user_ids(new@.entries),
        ensures
            pb_views(r@) == spec_diff(self@.entries, new@.entries),
    {
        Pb::diff(&self.entries, &new.entries)
    }
}

/// Decides whether no two entries of the list share a `user_id`.
pub fn check_unique_user_ids(entries: &Vec<Entry>) -> (r: bool)
    ensures
        r == unique_user_ids(entry_views(entries@)),
{
    let mut i: usize = 0;
    while i < entries.len()
        invariant
            i <= entries@.len(),
            forall|p: int, q: int| 0 <= p < q < i ==> entries@[p].user_id != entries@[q].user_id,
        decreases entries@.len() - i,
    {
        let mut j: usize = 0;
        while j < i
            invariant
                j <= i < entries@.len(),
                forall|q: int| 0 <= q < j ==> entries@[q].user_id != entries@[i as int].user_id,
            decreases i - j,
        {
            if entries[j].user_id == entries[i].user_id {
                proof {
                    let ev = entry_views(entries@);
                    assert(ev[j as int] == entries@[j as int]@);
                    assert(ev[i as int] == entries@[i as int]@);
                    assert(!unique_user_ids(ev));
                }
                return false;
            }
            j = j + 1;
        }
        i = i + 1;
    }
    true
}

/// Number of events in a list that belong to one participant.
pub open spec fn count_events_for(s: Seq<PbV>, uid: u32) -> nat
    decreases s.len(),
{
    if s.len() == 0 {
        0
    } else {
        (if s[0].new.user_id == uid {
            1nat
        } else {
            0nat
        }) + count_events_for(s.drop_first(), uid)
    }
}

/// The participant count splits over concatenation.
proof fn lemma_count_add(a: Seq<PbV>, b: Seq<PbV>, uid: u32)
    ensures
        count_events_for(a + b, uid) == count_events_for(a, uid) + count_events_for(b, uid),
    decreases a.len(),
{
    if a.len() == 0 {
        assert(a + b =~= b);
    } else {
        assert((a + b)[0] == a[0]);
        assert((a + b).drop_first() =~= a.drop_first() + b);
        lemma_count_add(a.drop_first(), b, uid);
    }
}

/// A list with no event of a participant counts zero for it, and conversely.
proof fn lemma_count_zero(s: Seq<PbV>, uid: u32)
    requires
        count_events_for(s, uid) == 0,
    ensures
        forall|k: int| 0 <= k < s.len() ==> (#[trigger] s[k]).new.user_id != uid,
    decreases s.len(),
{
    if s.len() > 0 {
        lemma_count_zero(s.drop_first(), uid);
        assert forall|k: int| 0 <= k < s.len() implies (#[trigger] s[k]).new.user_id != uid by {
            if k > 0 {
                assert(s[k] == s.drop_first()[k - 1]);
            }
        }
    }
}

/// Dropping the first entry keeps user ids unique.
proof fn lemma_unique_drop_first(s: Seq<EntryV>)
    requires
        unique_user_ids(s),
        s.len() > 0,
    ensures
        unique_user_ids(s.drop_first()),
{
    assert forall|i: int, j: int|
        0 <= i < j < s.drop_first().len() implies s.drop_first()[i].user_id != s.drop_first()[
        j].user_id by {
        assert(s.drop_first()[i] == s[i + 1]);
        assert(s.drop_first()[j] == s[j + 1]);
    }
}

/// True when the event is the one that some emitting entry of the current
/// snapshot yields.
pub open spec fn event_of_some_entry(old: Seq<EntryV>, new: Seq<EntryV>, p: PbV) -> bool {
    exists|j: int| 0 <= j < new.len() && emits(old, #[trigger] new[j]) && p == event_for(old, new[j])
}

/// Every event of a diff is the event of some emitting entry of the current
/// snapshot.
proof fn lemma_diff_events_from_new(old: Seq<EntryV>, new: Seq<EntryV>)
    ensures
        forall|k: int|
            0 <= k < spec_diff(old, new).len() ==> event_of_some_entry(
                old,
                new,
                #[trigger] spec_diff(old, new)[k],
            ),
    decreases new.len(),
{
    if new.len() > 0 {
        let rest = new.drop_first();
        lemma_diff_events_from_new(old, rest);
        let head = if emits(old, new[0]) {
            seq![event_for(old, new[0])]
        } else {
            Seq::<PbV>::empty()
        };
        assert(spec_diff(old, new) == head + spec_diff(old, rest));
        assert forall|k: int| 0 <= k < spec_diff(old, new).len() implies event_of_some_entry(
            old,
            new,
            #[trigger] spec_diff(old, new)[k],
        ) by {
            if k < head.len() {
                assert(spec_diff(old, new)[k] == event_for(old, new[0]));
                assert(0 <= 0 < new.len() && emits(old, new[0]) && spec_diff(old, new)[k]
                    == event_for(old, new[0]));
            } else {
                let kr = k - head.len();
                assert(spec_diff(old, new)[k] == spec_diff(old, rest)[kr]);
                assert(event_of_some_entry(old, rest, spec_diff(old, rest)[kr]));
                let j = choose|j: int|
                    0 <= j < rest.len() && emits(old, #[trigger] rest[j]) && spec_diff(old, rest)[kr]
                        == event_for(old, rest[j]);
                assert(rest[j] == new[j + 1]);
                assert(0 <= j + 1 < new.len() && emits(old, new[j + 1]) && spec_diff(old, new)[k]
                    == event_for(old, new[j + 1]));
            }
        }
    }
}

/// How many events a diff yields for one participant: one when the current
/// snapshot holds an emitting entry of that participant, else none.
proof fn lemma_diff_count(old: Seq<EntryV>, new: Seq<EntryV>, uid: u32)
    requires
        unique_user_ids(new),
    ensures
        count_events_for(spec_diff(old, new), uid) == (if has_user(new, uid) && emits(
            old,
            user_entry(new, uid),
        ) {
            1nat
        } else {
            0nat
        }),
    decreases new.len(),
{
    if new.len() == 0 {
        assert(!has_user(new, uid));
    } else {
        let rest = new.drop_first();
        lemma_unique_drop_first(new);
        lemma_diff_count(old, rest, uid);
        let head = if emits(old, new[0]) {
            seq![event_for(old, new[0])]
        } else {
            Seq::<PbV>::empty()
        };
        assert(spec_diff(old, new) == head + spec_diff(old, rest));
        lemma_count_add(head, spec_diff(old, rest), uid);
        if emits(old, new[0]) {
            assert(head.drop_first() =~= Seq::<PbV>::empty());
            assert(count_events_for(Seq::<PbV>::empty(), uid) == 0);
            assert(head[0] == event_for(old, new[0]));
            assert(count_events_for(head, uid) == (if new[0].user_id == uid {
                1nat
            } else {
                0nat
            }));
        }
        if new[0].user_id == uid {
            assert(has_user(new, uid));
            let i = user_index(new, uid);
            assert(0 <= i < new.len() && new[i].user_id == uid);
            assert(i == 0);
            assert(user_entry(new, uid) == new[0]);
            assert(!has_user(rest, uid)) by {
                if has_user(rest, uid) {
                    let j = choose|j: int| 0 <= j < rest.len() && rest[j].user_id == uid;
                    assert(rest[j] == new[j + 1]);
                    assert(new[0].user_id != new[j + 1].user_id);
                }
            }
        } else {
            if emits(old, new[0]) {
                assert(count_events_for(head, uid) == 0);
            }
            if has_user(new, uid) {
                let i = user_index(new, uid);
                assert(0 <= i < new.len() && new[i].user_id == uid);
                assert(i >= 1);
                assert(rest[i - 1] == new[i]);
                assert(has_user(rest, uid));
                let ir = user_index(rest, uid);
                assert(0 <= ir < rest.len() && rest[ir].user_id == uid);
                assert(rest[ir] == new[ir + 1]);
                assert(ir + 1 == i);
                assert(user_entry(rest, uid) == user_entry(new, uid));
            } else {
                assert(!has_user(rest, uid)) by {
                    if has_user(rest, uid) {
                        let j = choose|j: int| 0 <= j < rest.len() && rest[j].user_id == uid;
                        assert(rest[j] == new[j + 1]);
                        assert(has_user(new, uid));
                    }
                }
            }
        }
    }
}

/// A diff of entry lists in which nothing emits yields no events.
proof fn lemma_diff_no_emits(old: Seq<EntryV>, new: Seq<EntryV>)
    requires
        forall|k: int| 0 <= k < new.len() ==> !emits(old, #[trigger] new[k]),
    ensures
        spec_diff(old, new) == Seq::<PbV>::empty(),
    decreases new.len(),
{
    if new.len() > 0 {
        let rest = new.drop_first();
        assert(forall|k: int| 0 <= k < rest.len() ==> #[trigger] rest[k] == new[k + 1]);
        lemma_diff_no_emits(old, rest);
        assert(!emits(old, new[0]));
        assert(spec_diff(old, new) =~= Seq::<PbV>::empty());
    }
}

/// Law: diffing a snapshot against itself yields no events — every entry
/// matches itself, with the same run.
pub proof fn lemma_diff_identity(s: Seq<EntryV>)
    requires
        unique_user_ids(s),
    ensures
        spec_diff(s, s) == Seq::<PbV>::empty(),
{
    assert forall|k: int| 0 <= k < s.len() implies !emits(s, #[trigger] s[k]) by {
        assert(s[k].user_id == s[k].user_id && 0 <= k < s.len());
        assert(has_user(s, s[k].user_id));
        let i = user_index(s, s[k].user_id);
        assert(0 <= i < s.len() && s[i].user_id == s[k].user_id);
        assert(i == k);
        assert(user_entry(s, s[k].user_id) == s[k]);
    }
    lemma_diff_no_emits(s, s);
}

/// Law: a participant standing in both snapshots with an equal `run_id`
/// yields no event, whatever its scores or ranks in the two snapshots say.
pub proof fn lemma_same_run_suppressed(old: Seq<EntryV>, new: Seq<EntryV>, uid: u32)
    requires
        unique_user_ids(new),
        has_user(old, uid),
        has_user(new, uid),
        user_entry(old, uid).run_id == user_entry(new, uid).run_id,
    ensures
        count_events_for(spec_diff(old, new), uid) == 0,
        forall|k: int|
            0 <= k < spec_diff(old, new).len() ==> (#[trigger] spec_diff(old, new)[k]).new.user_id
                != uid,
{
    assert(user_entry(new, uid).user_id == uid);
    assert(!emits(old, user_entry(new, uid)));
    lemma_diff_count(old, new, uid);
    lemma_count_zero(spec_diff(old, new), uid);
}

/// Law: a participant present only in the current snapshot yields exactly one
/// event, and that event carries no previous entry.
pub proof fn lemma_new_participant(old: Seq<EntryV>, new: Seq<EntryV>, uid: u32)
    requires
        unique_user_ids(new),
        has_user(new, uid),
        !has_user(old, uid),
    ensures
        count_events_for(spec_diff(old, new), uid) == 1,
        forall|k: int|
            0 <= k < spec_diff(old, new).len() && (#[trigger] spec_diff(old, new)[k]).new.user_id
                == uid ==> spec_diff(old, new)[k].old is None && spec_diff(old, new)[k].new
                == user_entry(new, uid),
{
    assert(user_entry(new, uid).user_id == uid);
    assert(emits(old, user_entry(new, uid)));
    lemma_diff_count(old, new, uid);
    lemma_diff_events_from_new(old, new);
    assert forall|k: int|
        0 <= k < spec_diff(old, new).len() && (#[trigger] spec_diff(old, new)[k]).new.user_id
            == uid implies spec_diff(old, new)[k].old is None && spec_diff(old, new)[k].new
        == user_entry(new, uid) by {
        assert(event_of_some_entry(old, new, spec_diff(old, new)[k]));
        let j = choose|j: int|
            0 <= j < new.len() && emits(old, #[trigger] new[j]) && spec_diff(old, new)[k]
                == event_for(old, new[j]);
        assert(new[j].user_id == uid);
        let i = user_index(new, uid);
        assert(0 <= i < new.len() && new[i].user_id == uid);
        assert(i == j);
    }
}

/// Law: a participant absent from the current snapshot yields no event —
/// dropping off the board is not a reportable condition.
pub proof fn lemma_dropped_participant(old: Seq<EntryV>, new: Seq<EntryV>, uid: u32)
    requires
        unique_user_ids(new),
        !has_user(new, uid),
    ensures
        count_events_for(spec_diff(old, new), uid) == 0,
        forall|k: int|
            0 <= k < spec_diff(old, new).len() ==> (#[trigger] spec_diff(old, new)[k]).new.user_id
                != uid,
{
    lemma_diff_count(old, new, uid);
    lemma_count_zero(spec_diff(old, new), uid);
}

/// The entries of the current snapshot that yield an event, in their order.
pub open spec fn kept_entries(old: Seq<EntryV>, new: Seq<EntryV>) -> Seq<EntryV>
    decreases new.len(),
{
    if new.len() == 0 {
        Seq::empty()
    } else {
        (if emits(old, new[0]) {
            seq![new[0]]
        } else {
            Seq::<EntryV>::empty()
        }) + kept_entries(old, new.drop_first())
    }
}

/// Law: the events of a diff carry exactly the current snapshot's entries
/// that yield one, in the current snapshot's own order.
pub proof fn lemma_diff_ordering(old: Seq<EntryV>, new: Seq<EntryV>)
    ensures
        spec_diff(old, new).map_values(|p: PbV| p.new) == kept_entries(old, new),
    decreases new.len(),
{
    if new.len() == 0 {
        assert(spec_diff(old, new).map_values(|p: PbV| p.new) =~= kept_entries(old, new));
    } else {
        let rest = new.drop_first();
        lemma_diff_ordering(old, rest);
        let head = if emits(old, new[0]) {
            seq![event_for(old, new[0])]
        } else {
            Seq::<PbV>::empty()
        };
        assert(spec_diff(old, new) == head + spec_diff(old, rest));
        assert(event_for(old, new[0]).new == new[0]);
        assert(spec_diff(old, new).map_values(|p: PbV| p.new) =~= kept_entries(old, new));
    }
}

/// An owned copy of a byte vector.
fn copy_bytes(v: &Vec<u8>) -> (r: Vec<u8>)
    ensures
        r@ == v@,
{
    let mut r: Vec<u8> = Vec::new();
    let mut i: usize = 0;
    while i < v.len()
        invariant
            i <= v@.len(),
            r@ == v@.take(i as int),
        decreases v@.len() - i,
    {
        r.push(v[i]);
        assert(v@.take(i as int).push(v@[i as int]) =~= v@.take(i as int + 1));
        i = i + 1;
    }
    assert(v@.take(v@.len() as int) =~= v@);
    r
}

} // verus!
