//! The order of the steps in which one table is copied.
use vstd::prelude::*;

use crate::copy::table::TableRoute;

verus! {

/// What is to be done next for a table.
#[derive(Debug, Clone, Copy, PartialEq, Eq, Structural)]
pub enum TableAction {
    /// Find the metadata file, of a version or the current one, and read it.
    LoadMetadata(Option<u32>),
    /// List what is at the destination, and read its log.
    ScanDestination,
    /// Walk the manifests at the source while the destination is scanned.
    WalkAndScan,
    /// Take a slot for copying, if one is free.
    TakeSlot,
    /// Wait until a slot is free.
    WaitForSlot,
    /// Copy every file that the source lists.
    CopyListed,
    /// Copy the planned files.
    CopyPlanned,
    /// Write the metadata file.
    WriteMetadata,
    /// End the log: write it, or abandon it.
    CloseLog { commit: bool },
    /// Report how the copy ended.
    Finish(TableEnd),
}

/// How the copy of a table ended.
#[derive(Debug, Clone, Copy, PartialEq, Eq, Structural)]
pub enum TableEnd {
    /// There was no metadata: nothing was done, and that is no error.
    Skipped,
    /// All files were dealt with.
    Copied,
    /// A step failed.
    Failed,
}

/// What became of a step.
#[derive(Debug, Clone, Copy, PartialEq, Eq, Structural)]
pub enum StepEvent {
    /// It was done.
    Done,
    /// There was nothing to do it with: no metadata, or no free slot.
    Nothing,
    /// It failed.
    Failed,
}

/// The first action on a route.
pub open spec fn first_action(route: TableRoute) -> TableAction {
    match route {
        TableRoute::Everything => TableAction::ScanDestination,
        TableRoute::Reachable(version) => TableAction::LoadMetadata(version),
    }
}

/// The copy step of a route.
pub open spec fn copy_action(route: TableRoute) -> TableAction {
    match route {
        TableRoute::Everything => TableAction::CopyListed,
        TableRoute::Reachable(_) => TableAction::CopyPlanned,
    }
}

/// What follows an action.
pub open spec fn following(route: TableRoute, action: TableAction, event: StepEvent) -> TableAction {
    match (action, event) {
        (TableAction::LoadMetadata(_), StepEvent::Done) => TableAction::WalkAndScan,
        (TableAction::LoadMetadata(_), StepEvent::Nothing) => TableAction::Finish(
            TableEnd::Skipped,
        ),
        (TableAction::ScanDestination, StepEvent::Done) => TableAction::TakeSlot,
        (TableAction::WalkAndScan, StepEvent::Done) => TableAction::TakeSlot,
        (TableAction::TakeSlot, StepEvent::Done) => copy_action(route),
        (TableAction::TakeSlot, _) => TableAction::WaitForSlot,
        (TableAction::WaitForSlot, StepEvent::Done) => copy_action(route),
        (TableAction::CopyListed, StepEvent::Done) => TableAction::CloseLog { commit: true },
        (TableAction::CopyListed, _) => TableAction::CloseLog { commit: false },
        (TableAction::CopyPlanned, StepEvent::Done) => TableAction::WriteMetadata,
        (TableAction::CopyPlanned, _) => TableAction::CloseLog { commit: false },
        (TableAction::WriteMetadata, StepEvent::Done) => TableAction::CloseLog { commit: true },
        (TableAction::WriteMetadata, _) => TableAction::CloseLog { commit: false },
        (TableAction::CloseLog { commit: true }, StepEvent::Done) => TableAction::Finish(
            TableEnd::Copied,
        ),
        (TableAction::Finish(end), _) => TableAction::Finish(end),
        _ => TableAction::Finish(TableEnd::Failed),
    }
}

/// The copy of one table, step by step.
#[derive(Debug, Clone, Copy)]
pub struct TableRun {
    pub route: TableRoute,
    pub action: TableAction,
}

impl TableRun {
    pub fn new(route: TableRoute) -> (r: TableRun)
        ensures
            r.route == route,
            r.action == first_action(route),
    {
        let action = match route {
            TableRoute::Everything => TableAction::ScanDestination,
            TableRoute::Reachable(version) => TableAction::LoadMetadata(version),
        };
        TableRun { route, action }
    }

    /// Goes on with what became of the last action.
    pub fn advance(&mut self, event: StepEvent) -> (r: TableAction)
        ensures
            final(self).route == old(self).route,
            final(self).action == following(old(self).route, old(self).action, event),
            r == final(self).action,
    {
        let done = matches!(event, StepEvent::Done);
        let copy = match self.route {
            TableRoute::Everything => TableAction::CopyListed,
            TableRoute::Reachable(_) => TableAction::CopyPlanned,
        };
        let failed = TableAction::Finish(TableEnd::Failed);
        let next = match self.action {
            TableAction::LoadMetadata(_) => match event {
                StepEvent::Done => TableAction::WalkAndScan,
                StepEvent::Nothing => TableAction::Finish(TableEnd::Skipped),
                StepEvent::Failed => failed,
            },
            TableAction::ScanDestination | TableAction::WalkAndScan => if done {
                TableAction::TakeSlot
            } else {
                failed
            },
            TableAction::TakeSlot => if done {
                copy
            } else {
                TableAction::WaitForSlot
            },
            TableAction::WaitForSlot => if done {
                copy
            } else {
                failed
            },
            TableAction::CopyPlanned => if done {
                TableAction::WriteMetadata
            } else {
                TableAction::CloseLog { commit: false }
            },
            TableAction::CopyListed | TableAction::WriteMetadata => TableAction::CloseLog {
                commit: done,
            },
            TableAction::CloseLog { commit } => if commit && done {
                TableAction::Finish(TableEnd::Copied)
            } else {
                failed
            },
            TableAction::Finish(end) => TableAction::Finish(end),
        };
        self.action = next;
        next
    }
}

/// What is shown while an action runs, if anything new is.
pub open spec fn status_for(action: TableAction) -> Option<Seq<char>> {
    match action {
        TableAction::LoadMetadata(_) => Some("loading metadata"@),
        TableAction::ScanDestination => Some("scanning destination"@),
        TableAction::WalkAndScan => Some("walking manifest tree and scanning destination"@),
        TableAction::WaitForSlot => Some("waiting for copy slot"@),
        TableAction::CopyListed => Some("copying"@),
        TableAction::CopyPlanned => Some("copying"@),
        _ => None,
    }
}

/// What is shown while an action runs, if anything new is. A slot that is
/// free is taken without a word.
pub fn status_of(action: TableAction) -> (r: Option<String>)
    ensures
        match r {
            Some(text) => status_for(action) == Some(text@),
            None => status_for(action) is None,
        },
{
    match action {
        TableAction::LoadMetadata(_) => Some("loading metadata".to_owned()),
        TableAction::ScanDestination => Some("scanning destination".to_owned()),
        TableAction::WalkAndScan => Some(
            "walking manifest tree and scanning destination".to_owned(),
        ),
        TableAction::WaitForSlot => Some("waiting for copy slot".to_owned()),
        TableAction::CopyListed | TableAction::CopyPlanned => Some("copying".to_owned()),
        _ => None,
    }
}

/// The action after these events, from the start of a route.
pub open spec fn action_after(route: TableRoute, events: Seq<StepEvent>) -> TableAction
    decreases events.len(),
{
    if events.len() == 0 {
        first_action(route)
    } else {
        following(route, action_after(route, events.drop_last()), events.last())
    }
}

/// The actions on the way to the last one.
pub open spec fn actions_until(route: TableRoute, events: Seq<StepEvent>) -> Seq<TableAction> {
    Seq::new(events.len(), |i: int| action_after(route, events.take(i)))
}

/// The metadata file is written only once the planned files were copied
/// without a failure: it never points at files that are not there.
pub proof fn metadata_is_written_last(route: TableRoute, events: Seq<StepEvent>)
    requires
        action_after(route, events) is WriteMetadata,
    ensures
        route is Reachable,
        events.len() > 0,
        events.last() is Done,
        action_after(route, events.drop_last()) is CopyPlanned,
{
    lemma_action_suits_route(route, events.drop_last());
}

/// The log is written exactly if all went well up to there: after the last
/// step of the copy, and only if that was done.
pub proof fn log_is_written_after_success(route: TableRoute, events: Seq<StepEvent>)
    requires
        action_after(route, events) is CloseLog,
    ensures
        events.len() > 0,
        action_after(route, events) == (TableAction::CloseLog { commit: true }) <==> {
            &&& events.last() is Done
            &&& action_after(route, events.drop_last()) == match route {
                TableRoute::Everything => TableAction::CopyListed,
                TableRoute::Reachable(_) => TableAction::WriteMetadata,
            }
        },
{
    lemma_action_suits_route(route, events.drop_last());
}

/// A copy that is reported as a success has written its log.
pub proof fn success_has_a_log(route: TableRoute, events: Seq<StepEvent>)
    requires
        action_after(route, events) == TableAction::Finish(TableEnd::Copied),
    ensures
        actions_until(route, events).contains(TableAction::CloseLog { commit: true }),
    decreases events.len(),
{
    let init = events.drop_last();
    let before = action_after(route, init);
    let all = actions_until(route, events);
    if before == TableAction::Finish(TableEnd::Copied) {
        success_has_a_log(route, init);
        let earlier = actions_until(route, init);
        let i = choose|i: int|
            0 <= i < earlier.len() && earlier[i] == (TableAction::CloseLog { commit: true });
        assert(events.take(i) =~= init.take(i));
        assert(all[i] == earlier[i]);
    } else {
        assert(events.take(events.len() - 1) =~= init);
        assert(all[events.len() - 1] == before);
    }
}

/// Every copy ends, whatever happens, after at most seven steps.
pub proof fn every_copy_ends(route: TableRoute, events: Seq<StepEvent>)
    requires
        events.len() >= 7,
    ensures
        action_after(route, events) is Finish,
{
    lemma_steps_run_out(route, events);
}

/// How many steps are left at most.
spec fn steps_left(action: TableAction) -> nat {
    match action {
        TableAction::LoadMetadata(_) => 7,
        TableAction::ScanDestination => 6,
        TableAction::WalkAndScan => 6,
        TableAction::TakeSlot => 5,
        TableAction::WaitForSlot => 4,
        TableAction::CopyListed => 2,
        TableAction::CopyPlanned => 3,
        TableAction::WriteMetadata => 2,
        TableAction::CloseLog { .. } => 1,
        TableAction::Finish(_) => 0,
    }
}

proof fn lemma_steps_run_out(route: TableRoute, events: Seq<StepEvent>)
    ensures
        steps_left(action_after(route, events)) + events.len() <= 7 || action_after(
            route,
            events,
        ) is Finish,
    decreases events.len(),
{
    if events.len() > 0 {
        lemma_steps_run_out(route, events.drop_last());
    }
}

proof fn lemma_action_suits_route(route: TableRoute, events: Seq<StepEvent>)
    ensures
        action_after(route, events) is CopyPlanned ==> route is Reachable,
        action_after(route, events) is WriteMetadata ==> route is Reachable,
        action_after(route, events) is CopyListed ==> route is Everything,
    decreases events.len(),
{
    if events.len() > 0 {
        lemma_action_suits_route(route, events.drop_last());
    }
}

/// A copy that is reported as a success has been through all its steps: from
/// the metadata on if only what is reachable is copied, from the scan of the
/// destination on otherwise.
pub proof fn success_has_been_through_every_step(route: TableRoute, events: Seq<StepEvent>)
    requires
        action_after(route, events) == TableAction::Finish(TableEnd::Copied),
    ensures
        ({
            let done = actions_until(route, events);
            &&& done.contains(TableAction::TakeSlot)
            &&& match route {
                TableRoute::Everything => {
                    &&& done.contains(TableAction::ScanDestination)
                    &&& done.contains(TableAction::CopyListed)
                },
                TableRoute::Reachable(version) => {
                    &&& done.contains(TableAction::LoadMetadata(version))
                    &&& done.contains(TableAction::WalkAndScan)
                    &&& done.contains(TableAction::CopyPlanned)
                    &&& done.contains(TableAction::WriteMetadata)
                },
            }
        }),
{
    lemma_steps_before(route, events);
}

/// Does the action come after the scan?
spec fn is_scanned(action: TableAction) -> bool {
    action is TakeSlot || has_slot(action) || action is WaitForSlot
}

/// Does the action come after the wait for a slot?
spec fn has_slot(action: TableAction) -> bool {
    action is CopyListed || action is CopyPlanned || action is WriteMetadata || is_done(action)
}

/// Does the action come after the last step of the copy?
spec fn is_done(action: TableAction) -> bool {
    action == (TableAction::CloseLog { commit: true }) || action == TableAction::Finish(
        TableEnd::Copied,
    )
}

proof fn lemma_steps_before(route: TableRoute, events: Seq<StepEvent>)
    ensures
        ({
            let last = action_after(route, events);
            let all = actions_until(route, events);
            &&& is_scanned(last) ==> all.contains(
                match route {
                    TableRoute::Everything => TableAction::ScanDestination,
                    TableRoute::Reachable(_) => TableAction::WalkAndScan,
                },
            )
            &&& last is WalkAndScan || is_scanned(last) ==> (route matches TableRoute::Reachable(
                version,
            ) ==> all.contains(TableAction::LoadMetadata(version)))
            &&& has_slot(last) || last is WaitForSlot ==> all.contains(TableAction::TakeSlot)
            &&& last is WriteMetadata || is_done(last) ==> all.contains(copy_action(route))
            &&& is_done(last) && route is Reachable ==> all.contains(TableAction::WriteMetadata)
            &&& last is LoadMetadata ==> events.len() == 0 && route is Reachable
            &&& last is ScanDestination ==> events.len() == 0 && route is Everything
            &&& last is WalkAndScan ==> route is Reachable
        }),
    decreases events.len(),
{
    if events.len() > 0 {
        let init = events.drop_last();
        lemma_steps_before(route, init);
        lemma_action_suits_route(route, init);
        let before = actions_until(route, init);
        let all = actions_until(route, events);
        assert(events.take(init.len() as int) =~= init);
        assert(all[init.len() as int] == action_after(route, init));
        assert forall|action: TableAction| before.contains(action) implies all.contains(action) by {
            let i = choose|i: int| 0 <= i < before.len() && before[i] == action;
            assert(events.take(i) =~= init.take(i));
            assert(all[i] == action);
        }
    }
}

/// Did the step at the position go as it has to for the copy to succeed? A
/// slot need not be free at once.
pub open spec fn went_well(route: TableRoute, events: Seq<StepEvent>, i: int) -> bool {
    ||| events[i] is Done
    ||| action_after(route, events.take(i)) is TakeSlot
    ||| action_after(route, events.take(i)) is Finish
}

/// Once a copy has ended, it is reported as a success exactly if every step
/// went well.
pub proof fn copy_succeeds_if_every_step_does(route: TableRoute, events: Seq<StepEvent>)
    requires
        action_after(route, events) is Finish,
    ensures
        action_after(route, events) == TableAction::Finish(TableEnd::Copied) <==> forall|i: int|
            0 <= i < events.len() ==> #[trigger] went_well(route, events, i),
{
    lemma_going_well(route, events);
}

/// Is the run on its way to success?
spec fn goes_well(action: TableAction) -> bool {
    match action {
        TableAction::CloseLog { commit } => commit,
        TableAction::Finish(end) => end == TableEnd::Copied,
        _ => true,
    }
}

proof fn lemma_going_well(route: TableRoute, events: Seq<StepEvent>)
    ensures
        goes_well(action_after(route, events)) <==> forall|i: int|
            0 <= i < events.len() ==> #[trigger] went_well(route, events, i),
    decreases events.len(),
{
    if events.len() > 0 {
        let init = events.drop_last();
        let last = init.len() as int;
        lemma_going_well(route, init);
        assert(events.take(last) =~= init);
        assert forall|i: int| 0 <= i < last implies went_well(route, init, i) == #[trigger] went_well(
            route,
            events,
            i,
        ) by {
            assert(init.take(i) =~= events.take(i));
        }
        if forall|i: int| 0 <= i < events.len() ==> #[trigger] went_well(route, events, i) {
            assert(went_well(route, events, last));
            assert forall|i: int| 0 <= i < init.len() implies #[trigger] went_well(
                route,
                init,
                i,
            ) by {
                assert(went_well(route, events, i));
            }
        }
        if goes_well(action_after(route, events)) {
            assert(went_well(route, events, last));
            assert forall|i: int| 0 <= i < events.len() implies #[trigger] went_well(
                route,
                events,
                i,
            ) by {
                if i < last {
                    assert(went_well(route, init, i));
                }
            }
        }
    }
}

/// A table is passed over exactly if its metadata was looked for and is not
/// there.
pub proof fn only_a_table_without_metadata_is_passed_over(
    route: TableRoute,
    events: Seq<StepEvent>,
)
    ensures
        action_after(route, events) == TableAction::Finish(TableEnd::Skipped) <==> route
            is Reachable && events.len() > 0 && events[0] is Nothing,
    decreases events.len(),
{
    if events.len() > 0 {
        let init = events.drop_last();
        only_a_table_without_metadata_is_passed_over(route, init);
        lemma_steps_before(route, init);
        if init.len() > 0 {
            assert(init[0] == events[0]);
        } else {
            assert(action_after(route, init) == first_action(route));
        }
    }
}

/// No file is copied without a slot: one that was free at once, or one that
/// was waited for.
pub proof fn files_are_copied_in_a_slot(route: TableRoute, events: Seq<StepEvent>)
    requires
        action_after(route, events) is CopyListed || action_after(route, events) is CopyPlanned,
    ensures
        events.len() > 0,
        events.last() is Done,
        action_after(route, events.drop_last()) is TakeSlot || action_after(
            route,
            events.drop_last(),
        ) is WaitForSlot,
{
}

/// Each step that takes its time says what it is.
pub proof fn steps_say_what_they_are(version: Option<u32>)
    ensures
        status_for(first_action(TableRoute::Reachable(version))) == Some("loading metadata"@),
        status_for(first_action(TableRoute::Everything)) == Some("scanning destination"@),
        status_for(TableAction::WalkAndScan) == Some(
            "walking manifest tree and scanning destination"@,
        ),
        status_for(TableAction::WaitForSlot) == Some("waiting for copy slot"@),
        status_for(copy_action(TableRoute::Everything)) == Some("copying"@),
        status_for(copy_action(TableRoute::Reachable(version))) == Some("copying"@),
        status_for(TableAction::TakeSlot) is None,
        status_for(TableAction::WriteMetadata) is None,
{
}

} // verus!
