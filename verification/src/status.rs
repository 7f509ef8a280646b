//! What the driver keeps for afterwards: what a session lost, the words a line of the event log
//! says it in, and which changes the watcher's thread finds worth a line at all.
//!
//! **Blocks lost are counted on the audio path and written from somewhere else.** The rings count
//! a dropped or missing block; turning that count into a line of the log is the watcher thread's
//! work ([`GlitchWatch`]), and the totals for a whole session are said when the session ends.
//! Never on a timer, so the log stays small and every line in it means something.
use vstd::prelude::*;
use crate::text::{append_str, digits, joined, lemma_joined_push, number_u64};

verus! {

/// What one interface lost while a session ran.
///
/// Both numbers are read out of that device's rings, which the audio path counts into and nothing
/// else writes. They are the difference between a clean night and a bad one.
#[derive(Clone, Debug, Default, PartialEq, Eq)]
pub struct Glitches {
    /// What the configuration file calls the interface.
    pub device: String,
    /// Blocks thrown away because this device's ring was full.
    pub dropped: u64,
    /// Blocks that were not there when they were wanted, which is what a person hears as a click.
    pub starved: u64,
}

/// Whether the two counts of an interface can be added up at all.
pub open spec fn countable(glitch: Glitches) -> bool {
    glitch.dropped + glitch.starved <= u64::MAX
}

impl Glitches {
    /// Blocks this interface lost, either way.
    pub fn lost(&self) -> (lost: u64)
        requires
            countable(*self),
        ensures
            lost == self.dropped + self.starved,
    {
        self.dropped + self.starved
    }

    /// Whether this interface lost nothing at all.
    pub fn is_clean(&self) -> (clean: bool)
        requires
            countable(*self),
        ensures
            clean == (self.dropped + self.starved == 0),
    {
        self.lost() == 0
    }
}

/// A count less another, or nothing when the other is the larger.
pub open spec fn less(now: u64, before: u64) -> u64 {
    if now >= before {
        (now - before) as u64
    } else {
        0
    }
}

/// What a device had counted at the earlier reading, or nothing when there was no such reading.
pub open spec fn before_at(before: Seq<Glitches>, index: int) -> (u64, u64) {
    if index < before.len() {
        (before[index].dropped, before[index].starved)
    } else {
        (0, 0)
    }
}

/// What was lost between two readings of the counters, device by device.
///
/// The rings count from the moment the buffers were made, and a DAW may stop and start the audio
/// several times without letting them go. What a session lost is the difference, so that the
/// second session of an evening is not blamed for the first one's dropouts. A count that went
/// backwards, which is a new set of buffers, reads as nothing lost.
pub fn lost_since(before: &[Glitches], now: &[Glitches]) -> (lost: Vec<Glitches>)
    ensures
        lost@.len() == now@.len(),
        forall|i: int|
            0 <= i < now@.len() ==> {
                &&& (#[trigger] lost@[i]).device@ == now@[i].device@
                &&& lost@[i].dropped == less(now@[i].dropped, before_at(before@, i).0)
                &&& lost@[i].starved == less(now@[i].starved, before_at(before@, i).1)
            },
{
    let mut lost: Vec<Glitches> = Vec::new();
    let mut i: usize = 0;
    while i < now.len()
        invariant
            i <= now@.len(),
            lost@.len() == i,
            forall|k: int|
                0 <= k < i ==> {
                    &&& (#[trigger] lost@[k]).device@ == now@[k].device@
                    &&& lost@[k].dropped == less(now@[k].dropped, before_at(before@, k).0)
                    &&& lost@[k].starved == less(now@[k].starved, before_at(before@, k).1)
                },
        decreases now@.len() - i,
    {
        let (had_dropped, had_starved) = if i < before.len() {
            (before[i].dropped, before[i].starved)
        } else {
            (0u64, 0u64)
        };
        let glitch = &now[i];
        lost.push(
            Glitches {
                device: glitch.device.clone(),
                dropped: glitch.dropped.saturating_sub(had_dropped),
                starved: glitch.starved.saturating_sub(had_starved),
            },
        );
        i = i + 1;
    }
    lost
}

/// `n` blocks, said the way a person says it.
pub open spec fn spec_blocks(count: u64) -> Seq<char> {
    if count == 0 {
        "no blocks"@
    } else if count == 1 {
        "1 block"@
    } else {
        digits(count as nat) + " blocks"@
    }
}

fn blocks(count: u64) -> (said: String)
    ensures
        said@ == spec_blocks(count),
{
    proof {
        reveal_strlit("no blocks");
        reveal_strlit("1 block");
        reveal_strlit(" blocks");
    }
    if count == 0 {
        String::from_str("no blocks")
    } else if count == 1 {
        String::from_str("1 block")
    } else {
        let mut said = number_u64(count);
        append_str(&mut said, " blocks");
        said
    }
}

/// A number of things, said the way a person says it: "1 hour", "2 hours".
pub open spec fn spec_counted(count: u64, thing: Seq<char>) -> Seq<char> {
    if count == 1 {
        "1 "@ + thing
    } else {
        digits(count as nat) + " "@ + thing + "s"@
    }
}

fn counted(count: u64, thing: &str) -> (said: String)
    ensures
        said@ == spec_counted(count, thing@),
{
    proof {
        reveal_strlit("1 ");
        reveal_strlit(" ");
        reveal_strlit("s");
    }
    if count == 1 {
        let mut said = String::from_str("1 ");
        append_str(&mut said, thing);
        said
    } else {
        let mut said = number_u64(count);
        append_str(&mut said, " ");
        append_str(&mut said, thing);
        append_str(&mut said, "s");
        said
    }
}

/// The parts a length is said in: the hours, the minutes, and the seconds only when there are no
/// hours, because nobody reading a log in the morning wants a session measured in seconds.
pub open spec fn length_parts(seconds: u64) -> Seq<Seq<char>> {
    let hours = (seconds / 3600) as u64;
    let minutes = ((seconds % 3600) / 60) as u64;
    let rest = (seconds % 60) as u64;
    let with_hours: Seq<Seq<char>> = if hours > 0 {
        seq![spec_counted(hours, "hour"@)]
    } else {
        Seq::empty()
    };
    let with_minutes = if minutes > 0 {
        with_hours.push(spec_counted(minutes, "minute"@))
    } else {
        with_hours
    };
    if rest > 0 && hours == 0 {
        with_minutes.push(spec_counted(rest, "second"@))
    } else {
        with_minutes
    }
}

/// How long something ran, in whole seconds, said the way a person says it.
pub open spec fn spec_spoken_seconds(seconds: u64) -> Seq<char> {
    if seconds == 0 {
        "less than a second"@
    } else {
        joined(length_parts(seconds), " "@)
    }
}

/// How long something ran, in whole seconds, in the words a person would use: the two largest
/// units it has, or "less than a second" for nothing at all.
pub fn spoken_seconds(seconds: u64) -> (said: String)
    ensures
        said@ == spec_spoken_seconds(seconds),
{
    proof {
        reveal_strlit("less than a second");
        reveal_strlit(" ");
    }
    if seconds == 0 {
        return String::from_str("less than a second");
    }
    let hours = seconds / 3600;
    let minutes = (seconds % 3600) / 60;
    let rest = seconds % 60;
    let ghost mut parts: Seq<Seq<char>> = Seq::empty();
    let mut said = String::new();
    if hours > 0 {
        let piece = counted(hours, "hour");
        proof {
            reveal_strlit("hour");
            lemma_joined_push(parts, " "@, piece@);
            parts = parts.push(piece@);
        }
        append_str(&mut said, piece.as_str());
    }
    assert(said@ =~= joined(parts, " "@));
    if minutes > 0 {
        let piece = counted(minutes, "minute");
        proof {
            reveal_strlit("minute");
            lemma_joined_push(parts, " "@, piece@);
        }
        if hours > 0 {
            append_str(&mut said, " ");
        }
        append_str(&mut said, piece.as_str());
        proof {
            parts = parts.push(piece@);
        }
    }
    assert(said@ =~= joined(parts, " "@));
    if rest > 0 && hours == 0 {
        let piece = counted(rest, "second");
        proof {
            reveal_strlit("second");
            lemma_joined_push(parts, " "@, piece@);
        }
        if minutes > 0 {
            append_str(&mut said, " ");
        }
        append_str(&mut said, piece.as_str());
        proof {
            parts = parts.push(piece@);
        }
    }
    assert(said@ =~= joined(parts, " "@));
    assert(parts =~= length_parts(seconds));
    said
}

/// What one interface's line says of it at the end of a session.
pub open spec fn spec_interface_said(glitch: Glitches) -> Seq<char> {
    if glitch.dropped + glitch.starved == 0 {
        glitch.device@ + " lost nothing"@
    } else {
        glitch.device@ + " dropped "@ + spec_blocks(glitch.dropped) + " and missed "@ + spec_blocks(
            glitch.starved,
        )
    }
}

/// The line a session leaves behind it: how long it ran, in whole seconds, and what each
/// interface lost.
pub open spec fn spec_ended_detail(seconds: u64, glitches: Seq<Glitches>) -> Seq<char> {
    let ran = "ran for "@ + spec_spoken_seconds(seconds);
    if glitches.len() == 0 {
        ran
    } else if forall|i: int| 0 <= i < glitches.len() ==> #[trigger] glitches[i].dropped + glitches[i].starved == 0 {
        ran + ", and no interface lost a block"@
    } else {
        ran + ". "@ + joined(glitches.map_values(|glitch: Glitches| spec_interface_said(glitch)), "; "@)
    }
}

fn interface_said(glitch: &Glitches) -> (said: String)
    requires
        countable(*glitch),
    ensures
        said@ == spec_interface_said(*glitch),
{
    proof {
        reveal_strlit(" lost nothing");
        reveal_strlit(" dropped ");
        reveal_strlit(" and missed ");
    }
    let mut said = glitch.device.clone();
    if glitch.is_clean() {
        append_str(&mut said, " lost nothing");
    } else {
        append_str(&mut said, " dropped ");
        let dropped = blocks(glitch.dropped);
        append_str(&mut said, dropped.as_str());
        append_str(&mut said, " and missed ");
        let starved = blocks(glitch.starved);
        append_str(&mut said, starved.as_str());
    }
    said
}

/// The line a session leaves behind it: how long it ran, and what each interface lost.
///
/// This is the whole point of writing anything when a session ends. Without this line a night of
/// dropouts and a clean night look exactly the same the next morning.
pub fn ended_detail(seconds: u64, glitches: &[Glitches]) -> (detail: String)
    requires
        forall|i: int| 0 <= i < glitches@.len() ==> countable(#[trigger] glitches@[i]),
    ensures
        detail@ == spec_ended_detail(seconds, glitches@),
{
    proof {
        reveal_strlit("ran for ");
        reveal_strlit(", and no interface lost a block");
        reveal_strlit(". ");
        reveal_strlit("; ");
    }
    let mut ran = String::from_str("ran for ");
    let length = spoken_seconds(seconds);
    append_str(&mut ran, length.as_str());
    if glitches.len() == 0 {
        return ran;
    }
    let mut all_clean = true;
    let mut i: usize = 0;
    while i < glitches.len()
        invariant
            i <= glitches@.len(),
            forall|k: int| 0 <= k < glitches@.len() ==> countable(#[trigger] glitches@[k]),
            all_clean == forall|k: int| 0 <= k < i ==> #[trigger] glitches@[k].dropped + glitches@[k].starved == 0,
        decreases glitches@.len() - i,
    {
        if !glitches[i].is_clean() {
            all_clean = false;
        }
        i = i + 1;
    }
    if all_clean {
        append_str(&mut ran, ", and no interface lost a block");
        return ran;
    }
    let ghost each = glitches@.map_values(|glitch: Glitches| spec_interface_said(glitch));
    let mut list = String::new();
    let mut j: usize = 0;
    while j < glitches.len()
        invariant
            j <= glitches@.len(),
            forall|k: int| 0 <= k < glitches@.len() ==> countable(#[trigger] glitches@[k]),
            each == glitches@.map_values(|glitch: Glitches| spec_interface_said(glitch)),
            list@ == joined(each.take(j as int), "; "@),
        decreases glitches@.len() - j,
    {
        let piece = interface_said(&glitches[j]);
        proof {
            lemma_joined_push(each.take(j as int), "; "@, piece@);
            assert(each.take(j as int).push(piece@) =~= each.take(j + 1));
        }
        if j > 0 {
            append_str(&mut list, "; ");
        }
        append_str(&mut list, piece.as_str());
        j = j + 1;
    }
    assert(each.take(glitches@.len() as int) =~= each);
    append_str(&mut ran, ". ");
    append_str(&mut ran, list.as_str());
    ran
}

/// The line the first lost block of a session leaves, which is the moment a person usually wants:
/// what they were doing when the audio first went wrong.
pub open spec fn spec_first_glitch_detail(device: Seq<char>, dropped: u64, starved: u64) -> Seq<char> {
    if dropped > 0 && starved > 0 {
        device + " dropped a block and missed another, the first this session has lost"@
    } else if dropped > 0 {
        device
            + " dropped a block, the first this session has lost: it was handing them over faster than they could be taken"@
    } else {
        device
            + " had no block ready, the first this session has missed, which is what a person hears as a click"@
    }
}

/// The line the first lost block of a session leaves: which of the two things happened, and on
/// which interface.
pub fn first_glitch_detail(device: &str, dropped: u64, starved: u64) -> (detail: String)
    ensures
        detail@ == spec_first_glitch_detail(device@, dropped, starved),
{
    proof {
        reveal_strlit(" dropped a block and missed another, the first this session has lost");
        reveal_strlit(
            " dropped a block, the first this session has lost: it was handing them over faster than they could be taken",
        );
        reveal_strlit(
            " had no block ready, the first this session has missed, which is what a person hears as a click",
        );
    }
    let mut detail = String::from_str(device);
    if dropped > 0 && starved > 0 {
        append_str(&mut detail, " dropped a block and missed another, the first this session has lost");
    } else if dropped > 0 {
        append_str(
            &mut detail,
            " dropped a block, the first this session has lost: it was handing them over faster than they could be taken",
        );
    } else {
        append_str(
            &mut detail,
            " had no block ready, the first this session has missed, which is what a person hears as a click",
        );
    }
    detail
}

/// The devices whose flag is not what it was, each with what it is now, in device order.
pub open spec fn flips(was: Seq<bool>, now: Seq<bool>, upto: int) -> Seq<(usize, bool)>
    decreases upto,
{
    if upto <= 0 {
        Seq::empty()
    } else if was[upto - 1] != now[upto - 1] {
        flips(was, now, upto - 1).push(((upto - 1) as usize, now[upto - 1]))
    } else {
        flips(was, now, upto - 1)
    }
}

/// What a watcher compares a new reading with: what it saw last, or nothing seen yet when the
/// number of devices is not the one it was watching.
pub open spec fn compared_with<T>(seen: Seq<T>, count: nat, nothing: T) -> Seq<T> {
    if seen.len() == count {
        seen
    } else {
        Seq::new(count, |_i: int| nothing)
    }
}

/// Which devices have changed their mind about being here since the last look.
///
/// The audio path decides a device has stalled, because it is the only thing that can see the
/// callbacks; it writes a flag and nothing else. Turning a change of that flag into a line of the
/// log is this, on the watcher's thread.
pub struct StallWatch {
    last: Vec<bool>,
}

impl StallWatch {
    /// What each device's flag was at the last look.
    pub closed spec fn seen(&self) -> Seq<bool> {
        self.last@
    }

    /// A watcher that has seen nothing yet.
    pub fn new() -> (watch: StallWatch)
        ensures
            watch.seen() == Seq::<bool>::empty(),
    {
        StallWatch { last: Vec::new() }
    }

    /// The devices whose state is not what it was, and what it is now. Nothing at all the first
    /// time, unless a device is already stalled when we start looking.
    pub fn changes(&mut self, now: &[bool]) -> (changed: Vec<(usize, bool)>)
        ensures
            changed@ == flips(compared_with(old(self).seen(), now@.len(), false), now@, now@.len() as int),
            final(self).seen() == now@,
    {
        let ghost was = compared_with(self.last@, now@.len(), false);
        if self.last.len() != now.len() {
            self.last = Vec::new();
            let mut k: usize = 0;
            while k < now.len()
                invariant
                    k <= now@.len(),
                    self.last@.len() == k,
                    forall|j: int| 0 <= j < k ==> self.last@[j] == false,
                decreases now@.len() - k,
            {
                self.last.push(false);
                k = k + 1;
            }
            assert(self.last@ =~= was);
        }
        let mut changed: Vec<(usize, bool)> = Vec::new();
        let mut i: usize = 0;
        while i < now.len()
            invariant
                i <= now@.len(),
                was.len() == now@.len(),
                self.last@.len() == now@.len(),
                forall|j: int| 0 <= j < i ==> self.last@[j] == now@[j],
                forall|j: int| i <= j < now@.len() ==> self.last@[j] == was[j],
                changed@ == flips(was, now@, i as int),
            decreases now@.len() - i,
        {
            let stalled = now[i];
            if self.last[i] != stalled {
                self.last.set(i, stalled);
                changed.push((i, stalled));
            }
            i = i + 1;
        }
        assert(self.last@ =~= now@);
        changed
    }

    /// Forget everything, which is what a new session is.
    pub fn clear(&mut self)
        ensures
            final(self).seen() == Seq::<bool>::empty(),
    {
        self.last.clear();
    }
}

/// The devices whose first lost block of a session has just happened, each with its two counts,
/// in device order.
pub open spec fn first_losses(seen: Seq<u64>, now: Seq<(u64, u64)>, upto: int) -> Seq<(usize, u64, u64)>
    decreases upto,
{
    if upto <= 0 {
        Seq::empty()
    } else if now[upto - 1].0 + now[upto - 1].1 != 0 && seen[upto - 1] == 0 {
        first_losses(seen, now, upto - 1).push(((upto - 1) as usize, now[upto - 1].0, now[upto - 1].1))
    } else {
        first_losses(seen, now, upto - 1)
    }
}

/// What a device has lost either way, from its two counts.
pub open spec fn lost_of(counts: (u64, u64)) -> u64 {
    (counts.0 + counts.1) as u64
}

/// Which devices have just lost their first block of a session.
///
/// The same division of labour as [`StallWatch`]. The audio path counts a dropped or missing block
/// with one add and knows nothing about logs; this reads those counts on the watcher's thread and
/// decides whether a line is worth writing. Only the first is, per device per session: the totals
/// belong to the session's own line, and a busy log is a useless one.
pub struct GlitchWatch {
    /// What each device had lost at the last look. Zero means it has lost nothing yet, in this
    /// session or the next one.
    seen: Vec<u64>,
}

impl GlitchWatch {
    /// What each device had lost at the last look.
    pub closed spec fn seen(&self) -> Seq<u64> {
        self.seen@
    }

    /// A watcher that has seen nothing yet.
    pub fn new() -> (watch: GlitchWatch)
        ensures
            watch.seen() == Seq::<u64>::empty(),
    {
        GlitchWatch { seen: Vec::new() }
    }

    /// The devices whose first lost block has just happened, with what they lost, from each
    /// device's dropped and missing counts as they stand now. Counts that have gone back to
    /// nothing are a new session, whose first lost block is news again.
    pub fn first(&mut self, now: &[(u64, u64)]) -> (news: Vec<(usize, u64, u64)>)
        requires
            forall|i: int| 0 <= i < now@.len() ==> #[trigger] now@[i].0 + now@[i].1 <= u64::MAX,
        ensures
            news@ == first_losses(compared_with(old(self).seen(), now@.len(), 0u64), now@, now@.len() as int),
            final(self).seen() == now@.map_values(|counts: (u64, u64)| lost_of(counts)),
    {
        let ghost was = compared_with(self.seen@, now@.len(), 0u64);
        if self.seen.len() != now.len() {
            self.seen = Vec::new();
            let mut k: usize = 0;
            while k < now.len()
                invariant
                    k <= now@.len(),
                    self.seen@.len() == k,
                    forall|j: int| 0 <= j < k ==> self.seen@[j] == 0,
                decreases now@.len() - k,
            {
                self.seen.push(0);
                k = k + 1;
            }
            assert(self.seen@ =~= was);
        }
        let mut news: Vec<(usize, u64, u64)> = Vec::new();
        let mut i: usize = 0;
        while i < now.len()
            invariant
                i <= now@.len(),
                was.len() == now@.len(),
                self.seen@.len() == now@.len(),
                forall|j: int| 0 <= j < now@.len() ==> #[trigger] now@[j].0 + now@[j].1 <= u64::MAX,
                forall|j: int| 0 <= j < i ==> self.seen@[j] == lost_of(#[trigger] now@[j]),
                forall|j: int| i <= j < now@.len() ==> self.seen@[j] == was[j],
                news@ == first_losses(was, now@, i as int),
            decreases now@.len() - i,
        {
            let (dropped, starved) = now[i];
            let lost = dropped + starved;
            if lost == 0 {
                self.seen.set(i, 0);
            } else {
                if self.seen[i] == 0 {
                    news.push((i, dropped, starved));
                }
                self.seen.set(i, lost);
            }
            i = i + 1;
        }
        assert(self.seen@ =~= now@.map_values(|counts: (u64, u64)| lost_of(counts)));
        news
    }

    /// Forget everything, which is what a new plan is.
    pub fn clear(&mut self)
        ensures
            final(self).seen() == Seq::<u64>::empty(),
    {
        self.seen.clear();
    }
}

/// The devices whose measurement has just come to something: a state other than the one last
/// seen, and one that is finished, in device order.
pub open spec fn settlings(seen: Seq<Option<u32>>, now: Seq<u32>, finished: Seq<bool>, upto: int) -> Seq<usize>
    decreases upto,
{
    if upto <= 0 {
        Seq::empty()
    } else if seen[upto - 1] != Some(now[upto - 1]) && finished[upto - 1] {
        settlings(seen, now, finished, upto - 1).push((upto - 1) as usize)
    } else {
        settlings(seen, now, finished, upto - 1)
    }
}

/// Which interfaces' phase measurements have just settled.
///
/// The same division of labour as [`StallWatch`] once more. The audio path measures and writes a
/// state into the record; deciding that one of them is worth a line of the log is this, on the
/// watcher's thread. One line per interface per session: the state only changes when a
/// measurement finishes, and a session starting again puts it back to measuring, which is news of
/// its own the next time it settles. Nothing seen yet is a state no measurement ever ends in.
pub struct PhaseWatch {
    /// What each device's state was at the last look, if it has been looked at.
    seen: Vec<Option<u32>>,
}

impl PhaseWatch {
    /// What each device's state was at the last look.
    pub closed spec fn seen(&self) -> Seq<Option<u32>> {
        self.seen@
    }

    /// A watcher that has seen nothing yet.
    pub fn new() -> (watch: PhaseWatch)
        ensures
            watch.seen() == Seq::<Option<u32>>::empty(),
    {
        PhaseWatch { seen: Vec::new() }
    }

    /// The devices whose measurement has just come to something. `finished` says, state by state,
    /// whether it is one a measurement ends in: applied, or refused. A device still measuring, or
    /// with nothing set up, is not news.
    pub fn settled(&mut self, now: &[u32], finished: &[bool]) -> (news: Vec<usize>)
        requires
            finished@.len() == now@.len(),
        ensures
            news@ == settlings(compared_with(old(self).seen(), now@.len(), None), now@, finished@, now@.len() as int),
            final(self).seen() == now@.map_values(|state: u32| Some(state)),
    {
        let ghost was = compared_with(self.seen@, now@.len(), None);
        if self.seen.len() != now.len() {
            self.seen = Vec::new();
            let mut k: usize = 0;
            while k < now.len()
                invariant
                    k <= now@.len(),
                    self.seen@.len() == k,
                    forall|j: int| 0 <= j < k ==> self.seen@[j] == None::<u32>,
                decreases now@.len() - k,
            {
                self.seen.push(None);
                k = k + 1;
            }
            assert(self.seen@ =~= was);
        }
        let mut news: Vec<usize> = Vec::new();
        let mut i: usize = 0;
        while i < now.len()
            invariant
                i <= now@.len(),
                finished@.len() == now@.len(),
                was.len() == now@.len(),
                self.seen@.len() == now@.len(),
                forall|j: int| 0 <= j < i ==> self.seen@[j] == Some(now@[j]),
                forall|j: int| i <= j < now@.len() ==> self.seen@[j] == was[j],
                news@ == settlings(was, now@, finished@, i as int),
            decreases now@.len() - i,
        {
            let state = now[i];
            let changed = match self.seen[i] {
                Some(before) => before != state,
                None => true,
            };
            self.seen.set(i, Some(state));
            if changed && finished[i] {
                news.push(i);
            }
            i = i + 1;
        }
        assert(self.seen@ =~= now@.map_values(|state: u32| Some(state)));
        news
    }

    /// Forget everything, which is what a new plan is.
    pub fn clear(&mut self)
        ensures
            final(self).seen() == Seq::<Option<u32>>::empty(),
    {
        self.seen.clear();
    }
}

/// A reading compared with itself lost nothing, and one compared with no earlier reading lost all
/// it counts.
pub proof fn law_what_a_session_lost(now: Seq<Glitches>)
    ensures
        forall|i: int|
            0 <= i < now.len() ==> less(now[i].dropped, #[trigger] before_at(now, i).0) == 0 && less(
                now[i].starved,
                before_at(now, i).1,
            ) == 0,
        forall|i: int|
            0 <= i < now.len() ==> less(now[i].dropped, #[trigger] before_at(Seq::empty(), i).0)
                == now[i].dropped && less(now[i].starved, before_at(Seq::empty(), i).1) == now[i].starved,
{
}

/// A stall is news once: the same flags read again, after the watcher has taken them in, change
/// nothing.
pub proof fn law_a_stall_is_news_once(now: Seq<bool>)
    ensures
        flips(compared_with(now, now.len(), false), now, now.len() as int) == Seq::<(usize, bool)>::empty(),
{
    lemma_no_flips(now, now.len() as int);
}

proof fn lemma_no_flips(now: Seq<bool>, upto: int)
    requires
        0 <= upto <= now.len(),
    ensures
        flips(now, now, upto) == Seq::<(usize, bool)>::empty(),
    decreases upto,
{
    if upto > 0 {
        lemma_no_flips(now, upto - 1);
    }
}

/// The first lost block is news once: the same counts read again, after the watcher has taken
/// them in, are nobody's first.
pub proof fn law_a_first_loss_is_news_once(now: Seq<(u64, u64)>)
    requires
        forall|i: int| 0 <= i < now.len() ==> #[trigger] now[i].0 + now[i].1 <= u64::MAX,
    ensures
        first_losses(
            compared_with(now.map_values(|counts: (u64, u64)| lost_of(counts)), now.len(), 0u64),
            now,
            now.len() as int,
        ) == Seq::<(usize, u64, u64)>::empty(),
{
    let seen = now.map_values(|counts: (u64, u64)| lost_of(counts));
    lemma_no_first_losses(seen, now, now.len() as int);
}

proof fn lemma_no_first_losses(seen: Seq<u64>, now: Seq<(u64, u64)>, upto: int)
    requires
        0 <= upto <= now.len(),
        seen == now.map_values(|counts: (u64, u64)| lost_of(counts)),
        forall|i: int| 0 <= i < now.len() ==> #[trigger] now[i].0 + now[i].1 <= u64::MAX,
    ensures
        first_losses(seen, now, upto) == Seq::<(usize, u64, u64)>::empty(),
    decreases upto,
{
    if upto > 0 {
        lemma_no_first_losses(seen, now, upto - 1);
        assert(seen[upto - 1] == lost_of(now[upto - 1]));
    }
}

/// A settled measurement is news once: the same states read again, after the watcher has taken
/// them in, settle nothing.
pub proof fn law_a_settling_is_news_once(now: Seq<u32>, finished: Seq<bool>)
    requires
        finished.len() == now.len(),
    ensures
        settlings(
            compared_with(now.map_values(|state: u32| Some(state)), now.len(), None),
            now,
            finished,
            now.len() as int,
        ) == Seq::<usize>::empty(),
{
    let seen = now.map_values(|state: u32| Some(state));
    lemma_no_settlings(seen, now, finished, now.len() as int);
}

proof fn lemma_no_settlings(seen: Seq<Option<u32>>, now: Seq<u32>, finished: Seq<bool>, upto: int)
    requires
        0 <= upto <= now.len(),
        seen == now.map_values(|state: u32| Some(state)),
    ensures
        settlings(seen, now, finished, upto) == Seq::<usize>::empty(),
    decreases upto,
{
    if upto > 0 {
        lemma_no_settlings(seen, now, finished, upto - 1);
        assert(seen[upto - 1] == Some(now[upto - 1]));
    }
}

} // verus!
