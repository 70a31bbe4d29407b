//! The decisions of a running conversation.
//!
//! A [`DialogueRunner`] starts a conversation (or resumes a saved one), and
//! is driven by the game: [`DialogueRunner::advance`] when a presented line
//! is done, [`DialogueRunner::choose`] when a menu response is picked, and
//! [`DialogueRunner::drive`] once the database is available to step to what
//! follows. Each drive yields the [`RunnerEvent`] to present.

use vstd::prelude::*;

use crate::data::{ConversationId, DialogueDatabase, EntryId, EntryKey};
use crate::step::{
    conversation_index, find_conversation, response_key, root_entry, root_index, spec_step,
    spec_subtitle_at, step_from, subtitle_at, ConversationRef, Response, Step, StepView, Subtitle,
};
use crate::variables::{seed_map, Variables};
use crate::visits::{count_in, VisitCount, Visits};

verus! {

/// Where a [`DialogueRunner`] currently is.
#[derive(Debug, PartialEq)]
pub enum Phase {
    /// Waiting for the database; steps to the first line once it is there.
    Starting,
    /// Waiting for the database; re-presents the saved entry once it is
    /// there, without counting a new visit.
    Resuming {
        /// The entry to resume at.
        at: (ConversationId, EntryId),
    },
    /// A subtitle is on screen; waiting for an advance.
    Presenting {
        /// The entry being presented.
        at: (ConversationId, EntryId),
    },
    /// The current line is done; the next drive steps past it.
    Advancing {
        /// The entry being stepped past.
        from: (ConversationId, EntryId),
    },
    /// A menu is on screen; waiting for a choice.
    AwaitingChoice {
        /// The entry whose links produced the menu.
        at: (ConversationId, EntryId),
        /// The offered responses.
        responses: Vec<Response>,
    },
    /// A response was picked; the next drive presents it.
    Choosing {
        /// The chosen entry.
        to: (ConversationId, EntryId),
    },
    /// The conversation is over.
    Ended,
}

/// The mathematical meaning of a [`Phase`].
pub enum PhaseView {
    /// See [`Phase::Starting`].
    Starting,
    /// See [`Phase::Resuming`].
    Resuming { at: EntryKey },
    /// See [`Phase::Presenting`].
    Presenting { at: EntryKey },
    /// See [`Phase::Advancing`].
    Advancing { from: EntryKey },
    /// See [`Phase::AwaitingChoice`].
    AwaitingChoice { at: EntryKey, responses: Seq<Response> },
    /// See [`Phase::Choosing`].
    Choosing { to: EntryKey },
    /// See [`Phase::Ended`].
    Ended,
}

impl View for Phase {
    type V = PhaseView;

    open spec fn view(&self) -> PhaseView {
        match self {
            Phase::Starting => PhaseView::Starting,
            Phase::Resuming { at } => PhaseView::Resuming { at: *at },
            Phase::Presenting { at } => PhaseView::Presenting { at: *at },
            Phase::Advancing { from } => PhaseView::Advancing { from: *from },
            Phase::AwaitingChoice { at, responses } => PhaseView::AwaitingChoice {
                at: *at,
                responses: responses@,
            },
            Phase::Choosing { to } => PhaseView::Choosing { to: *to },
            Phase::Ended => PhaseView::Ended,
        }
    }
}

/// What a drive asks the game to present.
#[derive(Debug, Clone, PartialEq)]
pub enum RunnerEvent {
    /// A new line should be presented. `fresh` is false when the line was
    /// already seen (a resume): the game then re-presents it without running
    /// the entry's script again.
    SubtitleStarted { subtitle: Subtitle, fresh: bool },
    /// A response menu should be presented, with the choices in link order.
    ResponseMenuOpened(Vec<Response>),
    /// The conversation reached a dead end; the runner stays, ended.
    ConversationEnded,
}

/// The mathematical meaning of a [`RunnerEvent`].
pub enum RunnerEventView {
    /// See [`RunnerEvent::SubtitleStarted`].
    SubtitleStarted { subtitle: Subtitle, fresh: bool },
    /// See [`RunnerEvent::ResponseMenuOpened`].
    ResponseMenuOpened(Seq<Response>),
    /// See [`RunnerEvent::ConversationEnded`].
    ConversationEnded,
}

impl View for RunnerEvent {
    type V = RunnerEventView;

    open spec fn view(&self) -> RunnerEventView {
        match self {
            RunnerEvent::SubtitleStarted { subtitle, fresh } => RunnerEventView::SubtitleStarted {
                subtitle: *subtitle,
                fresh: *fresh,
            },
            RunnerEvent::ResponseMenuOpened(rs) => RunnerEventView::ResponseMenuOpened(rs@),
            RunnerEvent::ConversationEnded => RunnerEventView::ConversationEnded,
        }
    }
}

/// The outcome of picking a response by index.
#[derive(Debug, Clone, Copy, PartialEq, Eq, Structural)]
pub enum ChooseOutcome {
    /// The response was picked; the next drive presents it.
    Chosen,
    /// No menu is open; nothing changed.
    NoMenu,
    /// The index is outside the open menu; nothing changed.
    OutOfBounds,
}

/// A running conversation. `H` is how the game refers to its database.
#[derive(Debug)]
pub struct DialogueRunner<H> {
    /// The database the conversation lives in.
    pub database: H,
    /// Which conversation to run.
    pub conversation: ConversationRef,
    /// Where the conversation currently is.
    pub phase: Phase,
}

// ---------------------------------------------------------------------------
// The model.
// ---------------------------------------------------------------------------

/// Where a conversation is, for saving; none before it started and after it ended.
pub open spec fn spec_save_point(p: PhaseView) -> Option<EntryKey> {
    match p {
        PhaseView::Presenting { at } => Some(at),
        PhaseView::AwaitingChoice { at, .. } => Some(at),
        PhaseView::Resuming { at } => Some(at),
        PhaseView::Advancing { from } => Some(from),
        PhaseView::Choosing { to } => Some(to),
        PhaseView::Starting => None,
        PhaseView::Ended => None,
    }
}

/// Whether a drive has work to do in this phase.
pub open spec fn spec_pending(p: PhaseView) -> bool {
    p is Starting || p is Resuming || p is Advancing || p is Choosing
}

/// The step that presents the entry at `at`: its line, or the end when the
/// entry does not exist.
pub open spec fn line_step(db: DialogueDatabase, at: EntryKey) -> StepView {
    match spec_subtitle_at(db, at) {
        Some(s) => StepView::Line(s),
        None => StepView::End,
    }
}

/// The position used when the conversation to start cannot be found.
pub open spec fn nowhere() -> EntryKey {
    (ConversationId(0), EntryId(0))
}

/// The step a drive takes from a pending phase, the position it is taken
/// from, and whether it is fresh (counts visits).
pub open spec fn spec_decide(db: DialogueDatabase, conversation: ConversationRef, p: PhaseView) -> Option<
    (StepView, EntryKey, bool),
> {
    match p {
        PhaseView::Starting => match conversation_index(db, conversation) {
            Some(i) => match root_index(db.conversations@[i]) {
                Some(j) => {
                    let root = (db.conversations@[i].id, db.conversations@[i].entries@[j].id);
                    Some((spec_step(db, root), root, true))
                },
                None => Some((StepView::End, nowhere(), true)),
            },
            None => Some((StepView::End, nowhere(), true)),
        },
        PhaseView::Resuming { at } => Some((line_step(db, at), at, false)),
        PhaseView::Advancing { from } => Some((spec_step(db, from), from, true)),
        PhaseView::Choosing { to } => Some((line_step(db, to), to, true)),
        _ => None,
    }
}

/// The phase a step leads to, taken from `from`.
pub open spec fn step_phase(step: StepView, from: EntryKey) -> PhaseView {
    match step {
        StepView::Line(s) => PhaseView::Presenting { at: (s.conversation, s.entry) },
        StepView::Menu(rs) => PhaseView::AwaitingChoice { at: from, responses: rs },
        StepView::End => PhaseView::Ended,
    }
}

/// The counts after every response of a menu is offered once more.
pub open spec fn offer_all(m: Map<EntryKey, VisitCount>, rs: Seq<Response>) -> Map<EntryKey, VisitCount>
    decreases rs.len(),
{
    if rs.len() == 0 {
        m
    } else {
        let before = offer_all(m, rs.drop_last());
        let k = response_key(rs.last());
        before.insert(
            k,
            VisitCount {
                offered: (count_in(before, k).offered + 1) as u32,
                displayed: count_in(before, k).displayed,
            },
        )
    }
}

/// The visit counts after a step: a fresh line counts a display, a fresh
/// menu counts an offer of each response, anything else counts nothing.
pub open spec fn step_visits(m: Map<EntryKey, VisitCount>, step: StepView, fresh: bool) -> Map<
    EntryKey,
    VisitCount,
> {
    if !fresh {
        m
    } else {
        match step {
            StepView::Line(s) => {
                let k = (s.conversation, s.entry);
                m.insert(
                    k,
                    VisitCount {
                        offered: count_in(m, k).offered,
                        displayed: (count_in(m, k).displayed + 1) as u32,
                    },
                )
            },
            StepView::Menu(rs) => offer_all(m, rs),
            StepView::End => m,
        }
    }
}

/// How many responses of `rs` lead to the entry `k`.
pub open spec fn key_count(rs: Seq<Response>, k: EntryKey) -> nat
    decreases rs.len(),
{
    if rs.len() == 0 {
        0
    } else {
        key_count(rs.drop_last(), k) + if response_key(rs.last()) == k {
            1nat
        } else {
            0nat
        }
    }
}

/// Whether every entry of a menu can be offered once more per response
/// leading to it.
pub open spec fn menu_room(m: Map<EntryKey, VisitCount>, rs: Seq<Response>) -> bool {
    forall|i: int|
        0 <= i < rs.len() ==> (#[trigger] count_in(m, response_key(rs[i]))).offered + key_count(
            rs,
            response_key(rs[i]),
        ) <= u32::MAX
}

proof fn lemma_key_count_take(rs: Seq<Response>, i: int, k: EntryKey)
    requires
        0 <= i < rs.len(),
    ensures
        key_count(rs.take(i + 1), k) == key_count(rs.take(i), k) + if response_key(rs[i]) == k {
            1nat
        } else {
            0nat
        },
{
    assert(rs.take(i + 1).drop_last() =~= rs.take(i));
}

proof fn lemma_key_count_prefix(rs: Seq<Response>, i: int, k: EntryKey)
    requires
        0 <= i <= rs.len(),
    ensures
        key_count(rs.take(i), k) <= key_count(rs, k),
    decreases rs.len() - i,
{
    if i < rs.len() {
        lemma_key_count_take(rs, i, k);
        lemma_key_count_prefix(rs, i + 1, k);
    } else {
        assert(rs.take(i) =~= rs);
    }
}

/// Offering every response of a menu raises each entry's offer count by
/// the number of responses leading to it, when there is room.
pub proof fn lemma_offer_all_counts(m: Map<EntryKey, VisitCount>, rs: Seq<Response>, k: EntryKey)
    requires
        count_in(m, k).offered + key_count(rs, k) <= u32::MAX,
    ensures
        count_in(offer_all(m, rs), k).offered == count_in(m, k).offered + key_count(rs, k),
        count_in(offer_all(m, rs), k).displayed == count_in(m, k).displayed,
    decreases rs.len(),
{
    if rs.len() > 0 {
        lemma_offer_all_counts(m, rs.drop_last(), k);
    }
}

/// Whether the counts a step increments can still be incremented: for a
/// fresh line its entry's display count, for a fresh menu each response's
/// offer count.
pub open spec fn step_room(m: Map<EntryKey, VisitCount>, step: StepView, fresh: bool) -> bool {
    if !fresh {
        true
    } else {
        match step {
            StepView::Line(s) => count_in(m, (s.conversation, s.entry)).displayed < u32::MAX,
            StepView::Menu(rs) => menu_room(m, rs),
            StepView::End => true,
        }
    }
}

/// The event a step asks the game to present.
pub open spec fn step_event(step: StepView, fresh: bool) -> RunnerEventView {
    match step {
        StepView::Line(s) => RunnerEventView::SubtitleStarted { subtitle: s, fresh },
        StepView::Menu(rs) => RunnerEventView::ResponseMenuOpened(rs),
        StepView::End => RunnerEventView::ConversationEnded,
    }
}

// ---------------------------------------------------------------------------
// Laws.
// ---------------------------------------------------------------------------

/// Resuming re-presents the saved entry's line (or ends, when the entry is
/// gone) without counting a visit, whatever the visit counts are.
pub proof fn law_resume_counts_no_visit(db: DialogueDatabase, at: EntryKey, m: Map<EntryKey, VisitCount>)
    ensures
        spec_decide(db, ConversationRef::Id(at.0), PhaseView::Resuming { at }) == Some(
            (line_step(db, at), at, false),
        ),
        step_visits(m, line_step(db, at), false) == m,
        spec_subtitle_at(db, at) is Some ==> step_phase(line_step(db, at), at) == (PhaseView::Presenting { at }),
{
}

/// A save point fed back to a resumed runner is the same save point, and
/// the drive of the resumed runner lands on it again when the entry exists.
pub proof fn law_save_point_roundtrip(db: DialogueDatabase, p: PhaseView)
    requires
        spec_save_point(p) is Some,
    ensures
        spec_save_point(PhaseView::Resuming { at: spec_save_point(p)->0 }) == spec_save_point(p),
        spec_subtitle_at(db, spec_save_point(p)->0) is Some ==> spec_save_point(
            step_phase(line_step(db, spec_save_point(p)->0), spec_save_point(p)->0),
        ) == spec_save_point(p),
{
}

/// A menu's save point is the entry whose links produced it; a line's save
/// point is the line's own entry.
pub proof fn law_step_save_point(step: StepView, from: EntryKey)
    ensures
        step matches StepView::Menu(rs) ==> spec_save_point(step_phase(step, from)) == Some(from),
        step matches StepView::Line(s) ==> spec_save_point(step_phase(step, from)) == Some(
            (s.conversation, s.entry),
        ),
        step is End ==> spec_save_point(step_phase(step, from)) is None,
{
}

/// Advancing past a presented line makes the next drive take the step that
/// follows that line, counting visits.
pub proof fn law_advance_steps_past_line(db: DialogueDatabase, c: ConversationRef, at: EntryKey)
    ensures
        spec_decide(db, c, PhaseView::Advancing { from: at }) == Some((spec_step(db, at), at, true)),
{
}

/// A choice presents the chosen entry's line next, counting a display.
pub proof fn law_choice_presents_chosen(db: DialogueDatabase, c: ConversationRef, to: EntryKey)
    ensures
        spec_decide(db, c, PhaseView::Choosing { to }) == Some((line_step(db, to), to, true)),
        spec_subtitle_at(db, to) is Some ==> step_phase(line_step(db, to), to) == (PhaseView::Presenting { at: to }),
{
}

/// Phases that wait for the game (a line on screen, an open menu, the end)
/// give a drive nothing to do.
pub proof fn law_waiting_phases_idle(db: DialogueDatabase, c: ConversationRef, p: PhaseView)
    requires
        !spec_pending(p),
    ensures
        spec_decide(db, c, p) is None,
{
}

/// What a drive presents is what the runner then holds: after a menu is
/// shown, the runner awaits a choice among exactly the shown responses, in
/// the shown order, so choosing index `i` picks the `i`-th response shown;
/// after a line is shown, the runner presents that line's entry; after the
/// end is announced, the runner has ended.
pub proof fn law_phase_matches_event(step: StepView, from: EntryKey, fresh: bool)
    ensures
        step_event(step, fresh) matches RunnerEventView::ResponseMenuOpened(rs) ==> {
            &&& step_phase(step, from) is AwaitingChoice
            &&& step_phase(step, from)->AwaitingChoice_at == from
            &&& step_phase(step, from)->AwaitingChoice_responses.len() == rs.len()
            &&& forall|i: int|
                0 <= i < rs.len() ==> #[trigger] step_phase(step, from)->AwaitingChoice_responses[i] == rs[i]
        },
        step_event(step, fresh) matches RunnerEventView::SubtitleStarted { subtitle, .. } ==> step_phase(step, from)
            == (PhaseView::Presenting { at: (subtitle.conversation, subtitle.entry) }),
        step_event(step, fresh) is ConversationEnded ==> step_phase(step, from) is Ended,
{
}

// ---------------------------------------------------------------------------
// The executable functions.
// ---------------------------------------------------------------------------

/// A copy of a list of responses.
fn copy_responses(rs: &Vec<Response>) -> (r: Vec<Response>)
    ensures
        r@ == rs@,
{
    let mut out: Vec<Response> = Vec::new();
    let mut i: usize = 0;
    while i < rs.len()
        invariant
            i <= rs@.len(),
            out@ == rs@.take(i as int),
        decreases rs@.len() - i,
    {
        out.push(rs[i].clone_response());
        proof {
            assert(out@ =~= rs@.take(i + 1));
        }
        i = i + 1;
    }
    proof {
        assert(rs@.take(rs@.len() as int) =~= rs@);
    }
    out
}

/// Counts one more offer of every response of a menu.
fn offer_each(visits: &mut Visits, rs: &Vec<Response>)
    requires
        menu_room(old(visits)@, rs@),
    ensures
        final(visits)@ == offer_all(old(visits)@, rs@),
{
    let ghost start = visits@;
    let mut i: usize = 0;
    while i < rs.len()
        invariant
            i <= rs@.len(),
            menu_room(start, rs@),
            visits@ == offer_all(start, rs@.take(i as int)),
        decreases rs@.len() - i,
    {
        let k = (rs[i].conversation, rs[i].entry);
        assert(k == response_key(rs@[i as int]));
        proof {
            lemma_key_count_take(rs@, i as int, k);
            lemma_key_count_prefix(rs@, i as int + 1, k);
            lemma_offer_all_counts(start, rs@.take(i as int), k);
        }
        visits.record_offered(k);
        proof {
            assert(rs@.take(i + 1).drop_last() =~= rs@.take(i as int));
        }
        i = i + 1;
    }
    proof {
        assert(rs@.take(rs@.len() as int) =~= rs@);
    }
}

impl Visits {
    /// Whether the counts that applying `step` increments can still be
    /// incremented (see [`step_room`]).
    pub fn has_room_for(&self, step: &Step, fresh: bool) -> (r: bool)
        ensures
            r == step_room(self@, step@, fresh),
    {
        if !fresh {
            return true;
        }
        match step {
            Step::Line(s) => self.count((s.conversation, s.entry)).displayed < u32::MAX,
            Step::Menu(rs) => {
                let mut i: usize = 0;
                while i < rs.len()
                    invariant
                        i <= rs@.len(),
                        fresh,
                        step@ == StepView::Menu(rs@),
                        forall|j: int|
                            0 <= j < i ==> (#[trigger] count_in(self@, response_key(rs@[j]))).offered + key_count(
                                rs@,
                                response_key(rs@[j]),
                            ) <= u32::MAX,
                    decreases rs@.len() - i,
                {
                    let k = (rs[i].conversation, rs[i].entry);
                    assert(k == response_key(rs@[i as int]));
                    // Count the responses leading to `k`.
                    let mut n: usize = 0;
                    let mut j: usize = 0;
                    while j < rs.len()
                        invariant
                            j <= rs@.len(),
                            n as nat == key_count(rs@.take(j as int), k),
                            n <= j,
                        decreases rs@.len() - j,
                    {
                        proof {
                            lemma_key_count_take(rs@, j as int, k);
                        }
                        if rs[j].conversation == k.0 && rs[j].entry == k.1 {
                            n = n + 1;
                        }
                        j = j + 1;
                    }
                    proof {
                        assert(rs@.take(rs@.len() as int) =~= rs@);
                    }
                    let offered = self.count(k).offered;
                    if n > (u32::MAX - offered) as usize {
                        return false;
                    }
                    i = i + 1;
                }
                true
            },
            Step::End => true,
        }
    }
}

impl<H> DialogueRunner<H> {
    /// A runner that starts `conversation` as soon as the database is available.
    pub fn new(database: H, conversation: ConversationRef) -> (r: Self)
        ensures
            r.database == database,
            r.conversation == conversation,
            r.phase@ == PhaseView::Starting,
            spec_save_point(r.phase@) is None,
    {
        DialogueRunner { database, conversation, phase: Phase::Starting }
    }

    /// A runner that resumes a saved conversation at `at`, re-presenting that
    /// entry once the database is available. `at` comes from [`save_point`](Self::save_point).
    pub fn resume(database: H, at: (ConversationId, EntryId)) -> (r: Self)
        ensures
            r.database == database,
            r.conversation == ConversationRef::Id(at.0),
            r.phase@ == (PhaseView::Resuming { at }),
            spec_save_point(r.phase@) == Some(at),
    {
        DialogueRunner { database, conversation: ConversationRef::Id(at.0), phase: Phase::Resuming { at } }
    }

    /// Where this conversation currently is, for saving. `None` when the
    /// runner hasn't started or has ended; feed it back to [`resume`](Self::resume).
    pub fn save_point(&self) -> (r: Option<(ConversationId, EntryId)>)
        ensures
            r == spec_save_point(self.phase@),
    {
        match &self.phase {
            Phase::Presenting { at } => Some(*at),
            Phase::AwaitingChoice { at, .. } => Some(*at),
            Phase::Resuming { at } => Some(*at),
            Phase::Advancing { from } => Some(*from),
            Phase::Choosing { to } => Some(*to),
            Phase::Starting => None,
            Phase::Ended => None,
        }
    }

    /// Marks a presenting runner as ready to step past its current line.
    /// Returns false, changing nothing, when no line is being presented.
    pub fn advance(&mut self) -> (r: bool)
        ensures
            final(self).database == old(self).database,
            final(self).conversation == old(self).conversation,
            r == old(self).phase@ is Presenting,
            r ==> final(self).phase@ == (PhaseView::Advancing { from: old(self).phase@->Presenting_at }),
            !r ==> final(self).phase@ == old(self).phase@,
    {
        let from = match &self.phase {
            Phase::Presenting { at } => *at,
            _ => return false,
        };
        self.phase = Phase::Advancing { from };
        true
    }

    /// Picks the response at `index` of the open menu.
    pub fn choose_response(&mut self, index: usize) -> (r: ChooseOutcome)
        ensures
            final(self).database == old(self).database,
            final(self).conversation == old(self).conversation,
            r == (match old(self).phase@ {
                PhaseView::AwaitingChoice { responses, .. } => if index < responses.len() {
                    ChooseOutcome::Chosen
                } else {
                    ChooseOutcome::OutOfBounds
                },
                _ => ChooseOutcome::NoMenu,
            }),
            r == ChooseOutcome::Chosen ==> final(self).phase@ == (PhaseView::Choosing {
                to: response_key(old(self).phase@->AwaitingChoice_responses[index as int]),
            }),
            r != ChooseOutcome::Chosen ==> final(self).phase@ == old(self).phase@,
    {
        let to = match &self.phase {
            Phase::AwaitingChoice { responses, .. } => {
                if index < responses.len() {
                    (responses[index].conversation, responses[index].entry)
                } else {
                    return ChooseOutcome::OutOfBounds;
                }
            },
            _ => return ChooseOutcome::NoMenu,
        };
        self.phase = Phase::Choosing { to };
        ChooseOutcome::Chosen
    }

    /// Whether a drive has work to do: starting, resuming, advancing past a
    /// finished line, or presenting a chosen response.
    pub fn is_pending(&self) -> (r: bool)
        ensures
            r == spec_pending(self.phase@),
    {
        match &self.phase {
            Phase::Starting | Phase::Resuming { .. } | Phase::Advancing { .. } | Phase::Choosing {
                ..
            } => true,
            _ => false,
        }
    }

    /// Applies a [`Step`] taken from `from`: updates the phase, records
    /// visits when `fresh`, and returns the event to present.
    pub fn apply_step(&mut self, visits: &mut Visits, step: Step, from: (ConversationId, EntryId), fresh: bool) -> (r:
        RunnerEvent)
        requires
            step_room(old(visits)@, step@, fresh),
        ensures
            final(self).database == old(self).database,
            final(self).conversation == old(self).conversation,
            final(self).phase@ == step_phase(step@, from),
            final(visits)@ == step_visits(old(visits)@, step@, fresh),
            r@ == step_event(step@, fresh),
    {
        match step {
            Step::Line(subtitle) => {
                let at = (subtitle.conversation, subtitle.entry);
                self.phase = Phase::Presenting { at };
                if fresh {
                    visits.record_displayed(at);
                }
                RunnerEvent::SubtitleStarted { subtitle, fresh }
            },
            Step::Menu(responses) => {
                if fresh {
                    offer_each(visits, &responses);
                }
                self.phase = Phase::AwaitingChoice { at: from, responses: copy_responses(&responses) };
                RunnerEvent::ResponseMenuOpened(responses)
            },
            Step::End => {
                self.phase = Phase::Ended;
                RunnerEvent::ConversationEnded
            },
        }
    }

    /// The step a drive would take now against `db`, the position it is
    /// taken from, and whether it counts visits; `None` when there is no
    /// pending work.
    pub fn decide(&self, db: &DialogueDatabase) -> (r: Option<(Step, (ConversationId, EntryId), bool)>)
        ensures
            match spec_decide(*db, self.conversation, self.phase@) {
                Some((step, from, fresh)) => r matches Some((s2, f2, fr2)) && s2@ == step && f2 == from && fr2
                    == fresh,
                None => r is None,
            },
    {
        match &self.phase {
            Phase::Starting => {
                let root = match find_conversation(db, &self.conversation) {
                    Some(c) => match root_entry(c) {
                        Some(e) => Some((c.id, e.id)),
                        None => None,
                    },
                    None => None,
                };
                match root {
                    Some(root) => Some((step_from(db, root), root, true)),
                    None => Some((Step::End, (ConversationId(0), EntryId(0)), true)),
                }
            },
            Phase::Resuming { at } => {
                let at = *at;
                let step = match subtitle_at(db, at) {
                    Some(subtitle) => Step::Line(subtitle),
                    None => Step::End,
                };
                Some((step, at, false))
            },
            Phase::Advancing { from } => {
                let from = *from;
                Some((step_from(db, from), from, true))
            },
            Phase::Choosing { to } => {
                let to = *to;
                let step = match subtitle_at(db, to) {
                    Some(subtitle) => Step::Line(subtitle),
                    None => Step::End,
                };
                Some((step, to, true))
            },
            _ => None,
        }
    }

    /// Steps a runner with pending work against its loaded database: seeds
    /// the variables on first contact, decides the step (the first line of
    /// the conversation, the saved line, what follows the finished line, or
    /// the chosen response), and applies it. Returns `None`, changing
    /// nothing, when there is no pending work.
    pub fn drive(&mut self, db: &DialogueDatabase, variables: &mut Variables, visits: &mut Visits) -> (r:
        Option<RunnerEvent>)
        requires
            spec_decide(*db, old(self).conversation, old(self).phase@) matches Some((step, from, fresh))
                ==> step_room(old(visits)@, step, fresh),
        ensures
            final(self).database == old(self).database,
            final(self).conversation == old(self).conversation,
            final(variables)@ == (if old(self).phase@ is Starting || old(self).phase@ is Resuming {
                seed_map(old(variables)@, db.variables@)
            } else {
                old(variables)@
            }),
            match spec_decide(*db, old(self).conversation, old(self).phase@) {
                Some((step, from, fresh)) => {
                    &&& r is Some
                    &&& r->0@ == step_event(step, fresh)
                    &&& final(self).phase@ == step_phase(step, from)
                    &&& final(visits)@ == step_visits(old(visits)@, step, fresh)
                },
                None => {
                    &&& r is None
                    &&& final(self).phase@ == old(self).phase@
                    &&& final(visits)@ == old(visits)@
                },
            },
    {
        if !self.is_pending() {
            return None;
        }
        let seeding = match &self.phase {
            Phase::Starting | Phase::Resuming { .. } => true,
            _ => false,
        };
        if seeding {
            variables.seed(db);
        }
        let (step, from, fresh) = match self.decide(db) {
            Some(d) => d,
            None => return None,
        };
        Some(self.apply_step(visits, step, from, fresh))
    }
}

} // verus!
