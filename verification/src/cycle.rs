//! One poll cycle: for each configured repository, in order, compare the
//! fetched release against the stored id, and notify when it differs.

use vstd::prelude::*;
use crate::release::{Release, ReleaseModel, FetchError};
use crate::search::{importance, is_important};
use crate::state::{keys_distinct, stored_id, record_id, NotificationState, StateModel};

verus! {

/// What one repository contributed to a cycle: its identifier and the
/// outcome of fetching its latest eligible release.
pub struct CycleEvent {
    pub repo: String,
    pub outcome: Result<Release, FetchError>,
}

/// The mathematical image of a [`CycleEvent`].
pub ghost struct EventModel {
    pub repo: Seq<char>,
    pub outcome: Result<ReleaseModel, FetchError>,
}

impl View for CycleEvent {
    type V = EventModel;

    open spec fn view(&self) -> EventModel {
        EventModel {
            repo: self.repo@,
            outcome: match self.outcome {
                Ok(rel) => Ok(rel@),
                Err(e) => Err(e),
            },
        }
    }
}

/// A notification owed to the chat platform: which repository, which
/// release, and whether it is important.
pub struct Notification {
    pub repo: String,
    pub release: Release,
    pub important: bool,
}

/// The mathematical image of a [`Notification`].
pub ghost struct NotificationModel {
    pub repo: Seq<char>,
    pub release: ReleaseModel,
    pub important: bool,
}

impl View for Notification {
    type V = NotificationModel;

    open spec fn view(&self) -> NotificationModel {
        NotificationModel { repo: self.repo@, release: self.release@, important: self.important }
    }
}

/// The views of a cycle's events, in configured order.
pub open spec fn event_models(s: Seq<CycleEvent>) -> Seq<EventModel> {
    s.map_values(|e: CycleEvent| e@)
}

/// The views of the notifications a cycle produced, in order.
pub open spec fn note_models(s: Seq<Notification>) -> Seq<NotificationModel> {
    s.map_values(|n: Notification| n@)
}

/// A repository's event calls for a notification when its fetch succeeded
/// and the fetched id differs from the stored one.
pub open spec fn step_notifies(m: StateModel, e: EventModel) -> bool {
    match e.outcome {
        Ok(rel) => rel.id != stored_id(m, e.repo),
        Err(_) => false,
    }
}

/// The state after one repository's step: the fetched id recorded when a
/// notification is owed, the state untouched otherwise.
pub open spec fn step_state(m: StateModel, e: EventModel) -> StateModel {
    match e.outcome {
        Ok(rel) => if rel.id != stored_id(m, e.repo) {
            record_id(m, e.repo, rel.id)
        } else {
            m
        },
        Err(_) => m,
    }
}

/// The notification one repository's step owes, if any.
pub open spec fn step_note(m: StateModel, e: EventModel, search: Seq<char>) -> Option<
    NotificationModel,
> {
    match e.outcome {
        Ok(rel) => if rel.id != stored_id(m, e.repo) {
            Some(
                NotificationModel {
                    repo: e.repo,
                    release: rel,
                    important: importance(search, rel.body),
                },
            )
        } else {
            None
        },
        Err(_) => None,
    }
}

/// One repository's step as a sequence of zero or one notifications.
pub open spec fn step_notes(m: StateModel, e: EventModel, search: Seq<char>) -> Seq<
    NotificationModel,
> {
    match step_note(m, e, search) {
        Some(n) => seq![n],
        None => Seq::<NotificationModel>::empty(),
    }
}

/// The state after a whole cycle, processed strictly in order.
pub open spec fn cycle_state(m: StateModel, evs: Seq<EventModel>) -> StateModel
    decreases evs.len(),
{
    if evs.len() == 0 {
        m
    } else {
        cycle_state(step_state(m, evs[0]), evs.drop_first())
    }
}

/// The notifications a whole cycle owes, in configured order.
pub open spec fn cycle_notes(m: StateModel, evs: Seq<EventModel>, search: Seq<char>) -> Seq<
    NotificationModel,
>
    decreases evs.len(),
{
    if evs.len() == 0 {
        Seq::<NotificationModel>::empty()
    } else {
        step_notes(m, evs[0], search) + cycle_notes(step_state(m, evs[0]), evs.drop_first(), search)
    }
}

/// A step keeps the repository keys distinct.
pub proof fn lemma_step_wf(m: StateModel, e: EventModel)
    requires
        keys_distinct(m),
    ensures
        keys_distinct(step_state(m, e)),
{
    if step_notifies(m, e) {
        match e.outcome {
            Ok(rel) => {
                crate::state::lemma_record_id(m, e.repo, rel.id);
            },
            Err(_) => {},
        }
    }
}

/// A cycle keeps the repository keys distinct.
pub proof fn lemma_cycle_wf(m: StateModel, evs: Seq<EventModel>)
    requires
        keys_distinct(m),
    ensures
        keys_distinct(cycle_state(m, evs)),
    decreases evs.len(),
{
    if evs.len() > 0 {
        lemma_step_wf(m, evs[0]);
        lemma_cycle_wf(step_state(m, evs[0]), evs.drop_first());
    }
}

/// The view of an optional notification.
pub open spec fn opt_model(o: Option<Notification>) -> Option<NotificationModel> {
    match o {
        Some(n) => Some(n@),
        None => None,
    }
}

/// Process one repository of a cycle: compare the fetch outcome against the
/// stored id, record the fetched id and owe a notification when they
/// differ, and leave the state untouched otherwise — in particular on a
/// failed fetch.
pub fn process_repo(state: &mut NotificationState, event: &CycleEvent, search: &str) -> (note:
    Option<Notification>)
    requires
        old(state).wf(),
    ensures
        final(state).wf(),
        final(state)@ == step_state(old(state)@, event@),
        opt_model(note) == step_note(old(state)@, event@, search@),
{
    proof {
        lemma_step_wf(old(state)@, event@);
    }
    match &event.outcome {
        Ok(rel) => {
            let cur = state.get(&event.repo);
            if cur != rel.id {
                state.record(&event.repo, rel.id);
                let important = is_important(search, rel.body.as_str());
                Some(Notification { repo: event.repo.clone(), release: rel.clone(), important })
            } else {
                None
            }
        },
        Err(_) => None,
    }
}

/// Run a whole cycle over the configured repositories' events, in order,
/// returning the notifications owed. The state afterwards and the
/// notifications are exactly those of [`cycle_state`] and [`cycle_notes`].
pub fn run_cycle(state: &mut NotificationState, events: &Vec<CycleEvent>, search: &str) -> (notes:
    Vec<Notification>)
    requires
        old(state).wf(),
    ensures
        final(state).wf(),
        final(state)@ == cycle_state(old(state)@, event_models(events@)),
        note_models(notes@) == cycle_notes(old(state)@, event_models(events@), search@),
{
    let ghost m0 = state@;
    let ghost evs = event_models(events@);
    let mut notes: Vec<Notification> = Vec::new();
    let mut i: usize = 0;
    proof {
        assert(evs.skip(0) =~= evs);
        assert(note_models(notes@) =~= Seq::<NotificationModel>::empty());
    }
    while i < events.len()
        invariant
            i <= events@.len(),
            evs == event_models(events@),
            evs.len() == events@.len(),
            state.wf(),
            cycle_state(m0, evs) == cycle_state(state@, evs.skip(i as int)),
            cycle_notes(m0, evs, search@) == note_models(notes@) + cycle_notes(
                state@,
                evs.skip(i as int),
                search@,
            ),
        decreases events@.len() - i,
    {
        let ghost pre = state@;
        let note = process_repo(state, &events[i], search);
        if let Some(n) = note {
            notes.push(n);
        }
        proof {
            let rest = evs.skip(i as int);
            assert(rest[0] == evs[i as int]);
            assert(rest.drop_first() =~= evs.skip(i + 1));
            assert(cycle_state(pre, rest) == cycle_state(state@, evs.skip(i + 1)));
            assert(cycle_notes(pre, rest, search@) == step_notes(pre, evs[i as int], search@)
                + cycle_notes(state@, evs.skip(i + 1), search@));
            match step_note(pre, evs[i as int], search@) {
                Some(nm) => {
                    assert(note_models(notes@) =~= note_models(notes@.drop_last()) + seq![nm]);
                    assert(note_models(notes@.drop_last()) + seq![nm] + cycle_notes(
                        state@,
                        evs.skip(i + 1),
                        search@,
                    ) =~= note_models(notes@.drop_last()) + (seq![nm] + cycle_notes(
                        state@,
                        evs.skip(i + 1),
                        search@,
                    )));
                    assert(step_notes(pre, evs[i as int], search@) == seq![nm]);
                },
                None => {
                    assert(step_notes(pre, evs[i as int], search@) =~= Seq::<
                        NotificationModel,
                    >::empty());
                    assert(note_models(notes@) + (Seq::<NotificationModel>::empty() + cycle_notes(
                        state@,
                        evs.skip(i + 1),
                        search@,
                    )) =~= note_models(notes@) + cycle_notes(state@, evs.skip(i + 1), search@));
                },
            }
        }
        i = i + 1;
    }
    proof {
        assert(evs.skip(events@.len() as int) =~= Seq::<EventModel>::empty());
        assert(note_models(notes@) + Seq::<NotificationModel>::empty() =~= note_models(notes@));
    }
    notes
}

/// No two events of a cycle name the same repository, as a configured
/// repository list does not.
pub open spec fn distinct_repos(evs: Seq<EventModel>) -> bool {
    forall|i: int, j: int|
        0 <= i < j < evs.len() ==> (#[trigger] evs[i]).repo != (#[trigger] evs[j]).repo
}

/// How many of a cycle's notifications name repository `r`.
pub open spec fn count_for(notes: Seq<NotificationModel>, r: Seq<char>) -> nat
    decreases notes.len(),
{
    if notes.len() == 0 {
        0
    } else {
        (if notes[0].repo == r {
            1nat
        } else {
            0nat
        }) + count_for(notes.drop_first(), r)
    }
}

/// Counting distributes over concatenation.
pub proof fn lemma_count_for_add(a: Seq<NotificationModel>, b: Seq<NotificationModel>, r: Seq<char>)
    ensures
        count_for(a + b, r) == count_for(a, r) + count_for(b, r),
    decreases a.len(),
{
    if a.len() == 0 {
        assert(a + b =~= b);
    } else {
        assert((a + b)[0] == a[0]);
        assert((a + b).drop_first() =~= a.drop_first() + b);
        lemma_count_for_add(a.drop_first(), b, r);
    }
}

/// A cycle splits at any point: running the whole event list equals running
/// a prefix and then the rest from the state the prefix left behind, and
/// the notifications concatenate in order.
pub proof fn lemma_cycle_append(
    m: StateModel,
    a: Seq<EventModel>,
    b: Seq<EventModel>,
    search: Seq<char>,
)
    ensures
        cycle_state(m, a + b) == cycle_state(cycle_state(m, a), b),
        cycle_notes(m, a + b, search) == cycle_notes(m, a, search) + cycle_notes(
            cycle_state(m, a),
            b,
            search,
        ),
    decreases a.len(),
{
    if a.len() == 0 {
        assert(a + b =~= b);
        assert(cycle_notes(m, a, search) + cycle_notes(m, b, search) =~= cycle_notes(m, b, search));
    } else {
        assert((a + b)[0] == a[0]);
        assert((a + b).drop_first() =~= a.drop_first() + b);
        let m1 = step_state(m, a[0]);
        lemma_cycle_append(m1, a.drop_first(), b, search);
        assert(step_notes(m, a[0], search) + (cycle_notes(m1, a.drop_first(), search)
            + cycle_notes(cycle_state(m1, a.drop_first()), b, search)) =~= (step_notes(
            m,
            a[0],
            search,
        ) + cycle_notes(m1, a.drop_first(), search)) + cycle_notes(
            cycle_state(m1, a.drop_first()),
            b,
            search,
        ));
    }
}

/// A cycle leaves a repository alone that none of its events name: its
/// stored id stays, and no notification names it.
pub proof fn lemma_cycle_untouched(
    m: StateModel,
    evs: Seq<EventModel>,
    search: Seq<char>,
    r: Seq<char>,
)
    requires
        keys_distinct(m),
        forall|i: int| 0 <= i < evs.len() ==> (#[trigger] evs[i]).repo != r,
    ensures
        stored_id(cycle_state(m, evs), r) == stored_id(m, r),
        count_for(cycle_notes(m, evs, search), r) == 0,
    decreases evs.len(),
{
    if evs.len() > 0 {
        let m1 = step_state(m, evs[0]);
        assert(stored_id(m1, r) == stored_id(m, r)) by {
            if step_notifies(m, evs[0]) {
                match evs[0].outcome {
                    Ok(rel) => {
                        crate::state::lemma_record_id(m, evs[0].repo, rel.id);
                    },
                    Err(_) => {},
                }
            }
        }
        lemma_step_wf(m, evs[0]);
        lemma_cycle_untouched(m1, evs.drop_first(), search, r);
        lemma_count_for_add(
            step_notes(m, evs[0], search),
            cycle_notes(m1, evs.drop_first(), search),
            r,
        );
        assert(count_for(step_notes(m, evs[0], search), r) == 0) by {
            match step_note(m, evs[0], search) {
                Some(n) => {
                    assert(n.repo == evs[0].repo);
                    assert(step_notes(m, evs[0], search) == seq![n]);
                    assert(seq![n].drop_first() =~= Seq::<NotificationModel>::empty());
                    assert(count_for(seq![n], r) == 0 + count_for(
                        seq![n].drop_first(),
                        r,
                    ));
                },
                None => {},
            }
        }
    }
}

/// After a cycle over distinct repositories, a repository whose fetch
/// succeeded stores exactly the fetched id — whether or not it was notified
/// — and was notified exactly once if the id was new, not at all otherwise.
pub proof fn lemma_cycle_settles(
    m: StateModel,
    evs: Seq<EventModel>,
    search: Seq<char>,
    k: int,
    rel: ReleaseModel,
)
    requires
        keys_distinct(m),
        distinct_repos(evs),
        0 <= k < evs.len(),
        evs[k].outcome == Ok::<ReleaseModel, FetchError>(rel),
    ensures
        stored_id(cycle_state(m, evs), evs[k].repo) == rel.id,
        count_for(cycle_notes(m, evs, search), evs[k].repo) == (if rel.id != stored_id(
            m,
            evs[k].repo,
        ) {
            1nat
        } else {
            0nat
        }),
{
    let r = evs[k].repo;
    let a = evs.subrange(0, k);
    let mid = seq![evs[k]];
    let b = evs.subrange(k + 1, evs.len() as int);
    assert(evs =~= a + mid + b);
    lemma_cycle_append(m, a + mid, b, search);
    lemma_cycle_append(m, a, mid, search);
    assert((a + mid) + b =~= evs);
    let ma = cycle_state(m, a);
    lemma_cycle_wf(m, a);
    assert(forall|i: int| 0 <= i < a.len() ==> (#[trigger] a[i]).repo != r) by {
        assert(forall|i: int| 0 <= i < a.len() ==> a[i] == evs[i]);
    }
    lemma_cycle_untouched(m, a, search, r);
    let e = evs[k];
    let m1 = step_state(ma, e);
    assert(cycle_state(m, a + mid) == m1) by {
        assert(mid.drop_first() =~= Seq::<EventModel>::empty());
        assert(mid[0] == e);
        assert(cycle_state(ma, mid) == cycle_state(step_state(ma, e), mid.drop_first()));
        assert(cycle_state(step_state(ma, e), mid.drop_first()) == step_state(ma, e));
    }
    assert(stored_id(ma, r) == stored_id(m, r));
    assert(stored_id(m1, r) == rel.id) by {
        if rel.id != stored_id(ma, r) {
            crate::state::lemma_record_id(ma, r, rel.id);
        }
    }
    lemma_step_wf(ma, e);
    assert(forall|i: int| 0 <= i < b.len() ==> (#[trigger] b[i]).repo != r) by {
        assert(forall|i: int| 0 <= i < b.len() ==> b[i] == evs[k + 1 + i]);
    }
    lemma_cycle_untouched(m1, b, search, r);
    assert(stored_id(cycle_state(m, evs), r) == rel.id);
    let na = cycle_notes(m, a, search);
    let nmid = cycle_notes(ma, mid, search);
    let nb = cycle_notes(m1, b, search);
    assert(cycle_notes(m, evs, search) == (na + nmid) + nb);
    lemma_count_for_add(na + nmid, nb, r);
    lemma_count_for_add(na, nmid, r);
    assert(nmid =~= step_notes(ma, e, search)) by {
        assert(mid.drop_first() =~= Seq::<EventModel>::empty());
        assert(mid[0] == e);
        assert(cycle_notes(ma, mid, search) == step_notes(ma, e, search) + cycle_notes(
            step_state(ma, e),
            mid.drop_first(),
            search,
        ));
        assert(cycle_notes(step_state(ma, e), mid.drop_first(), search) =~= Seq::<
            NotificationModel,
        >::empty());
        assert(step_notes(ma, e, search) + Seq::<NotificationModel>::empty() =~= step_notes(
            ma,
            e,
            search,
        ));
    }
    assert(count_for(nmid, r) == (if rel.id != stored_id(m, r) {
        1nat
    } else {
        0nat
    })) by {
        match step_note(ma, e, search) {
            Some(n) => {
                assert(rel.id != stored_id(ma, r));
                assert(n.repo == r);
                assert(step_notes(ma, e, search) == seq![n]);
                assert(seq![n].drop_first() =~= Seq::<NotificationModel>::empty());
                assert(count_for(seq![n], r) == 1 + count_for(seq![n].drop_first(), r));
            },
            None => {
                assert(rel.id == stored_id(ma, r));
            },
        }
    }
}

/// For all repositories newly exceeding their stored id, a cycle over
/// distinct repositories sends exactly one notification for them and stores
/// the new id.
pub proof fn lemma_new_release_notified_once(
    m: StateModel,
    evs: Seq<EventModel>,
    search: Seq<char>,
    k: int,
    rel: ReleaseModel,
)
    requires
        keys_distinct(m),
        distinct_repos(evs),
        0 <= k < evs.len(),
        evs[k].outcome == Ok::<ReleaseModel, FetchError>(rel),
        stored_id(m, evs[k].repo) < rel.id,
    ensures
        stored_id(cycle_state(m, evs), evs[k].repo) == rel.id,
        count_for(cycle_notes(m, evs, search), evs[k].repo) == 1,
{
    lemma_cycle_settles(m, evs, search, k, rel);
}

/// A state every event of which is already stored is a fixpoint: the cycle
/// changes nothing and owes no notification.
pub proof fn lemma_cycle_fixpoint(m: StateModel, evs: Seq<EventModel>, search: Seq<char>)
    requires
        forall|i: int| 0 <= i < evs.len() ==> !step_notifies(m, #[trigger] evs[i]),
    ensures
        cycle_state(m, evs) == m,
        cycle_notes(m, evs, search) =~= Seq::<NotificationModel>::empty(),
    decreases evs.len(),
{
    if evs.len() > 0 {
        assert(!step_notifies(m, evs[0]));
        assert(step_state(m, evs[0]) == m);
        assert(forall|i: int|
            0 <= i < evs.drop_first().len() ==> evs.drop_first()[i] == evs[i + 1]);
        lemma_cycle_fixpoint(m, evs.drop_first(), search);
        assert(step_notes(m, evs[0], search) =~= Seq::<NotificationModel>::empty());
        assert(Seq::<NotificationModel>::empty() + cycle_notes(m, evs.drop_first(), search)
            =~= cycle_notes(m, evs.drop_first(), search));
    }
}

/// Idempotence: with no new releases on the hosts, running the same cycle a
/// second time leaves the state unchanged and sends no notification.
pub proof fn lemma_cycle_idempotent(m: StateModel, evs: Seq<EventModel>, search: Seq<char>)
    requires
        keys_distinct(m),
        distinct_repos(evs),
    ensures
        cycle_state(cycle_state(m, evs), evs) == cycle_state(m, evs),
        cycle_notes(cycle_state(m, evs), evs, search) =~= Seq::<NotificationModel>::empty(),
{
    let m1 = cycle_state(m, evs);
    assert forall|i: int| 0 <= i < evs.len() implies !step_notifies(m1, #[trigger] evs[i]) by {
        match evs[i].outcome {
            Ok(rel) => {
                lemma_cycle_settles(m, evs, search, i, rel);
            },
            Err(_) => {},
        }
    }
    lemma_cycle_fixpoint(m1, evs, search);
}

} // verus!
