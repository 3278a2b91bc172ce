//! What happens with a checked target, step by step, until the visitor is answered.
use vstd::prelude::*;

use crate::pages::GlobalContext;
use crate::status::Status;

verus! {

/// What is asked about. `domain` is set if the target is a domain; `Z` is the size of a subnet.
pub struct CheckTarget<Z> {
    pub query: String,
    pub readable_type: String,
    pub domain: Option<String>,
    pub subnet_size: Z,
}

/// What a check found out: `B` says what blocks the target.
pub enum CheckVerdict<B> {
    Clear,
    Blocked(B),
}

/// The result of a check. `D` holds what is known about the target besides.
pub struct Check<B, D> {
    pub verdict: CheckVerdict<B>,
    pub rkn_subnets: Vec<String>,
    pub details: D,
}

/// Why there is no result.
pub enum CheckError {
    NotFound,
    Failed,
}

/// The page for a target that nothing is known of.
pub struct EmptyContext {
    pub global: GlobalContext,
    pub target: String,
    pub target_type: String,
}

/// The page with the result of a check. `W` is what the whitelist says of a domain.
pub struct ResultContext<B, D, Z, W> {
    pub id: Option<String>,
    pub global: GlobalContext,
    pub found: bool,
    pub blocked: Option<B>,
    pub blocked_subnets: Vec<String>,
    pub target: String,
    pub target_type: String,
    pub whitelist: Option<W>,
    pub details: D,
    pub subnet_size: Z,
}

/// The page that answers a check.
pub enum CheckPage<B, D, Z, W> {
    Empty(EmptyContext),
    Findings(ResultContext<B, D, Z, W>),
}

/// What is to be done next.
#[derive(Debug, Clone, Copy, PartialEq, Eq, Structural)]
pub enum CheckAction {
    /// Acquire a connection to the database.
    Connect,
    /// Save the result of the check.
    Save,
    /// Look the domain up in the whitelist.
    LookUp,
}

/// What came of an action.
pub enum CheckEvent<W> {
    /// Whether a connection was acquired.
    Connected(bool),
    /// The identifier under which the result was saved, if it was.
    Saved(Option<String>),
    /// What the whitelist says of the domain, or nothing where the lookup failed.
    LookedUp(Option<Option<W>>),
}

/// A check that is not answered yet: what is asked about, what the check found, and what is to
/// be done next.
pub struct CheckFlow<B, D, Z> {
    pub target: CheckTarget<Z>,
    pub outcome: Result<Check<B, D>, CheckError>,
    pub id: Option<String>,
    pub action: CheckAction,
}

/// Where a check stands after an event.
pub enum CheckStep<B, D, Z, W> {
    /// There is more to be done.
    Ongoing(CheckFlow<B, D, Z>),
    /// The visitor is answered.
    Answered(Result<CheckPage<B, D, Z, W>, Status>),
}

/// The answer to a check once the whitelist has been asked where it had to be.
pub open spec fn answer<B, D, Z, W>(
    global: GlobalContext,
    target: CheckTarget<Z>,
    outcome: Result<Check<B, D>, CheckError>,
    id: Option<String>,
    whitelist: Option<W>,
) -> Result<CheckPage<B, D, Z, W>, Status> {
    match outcome {
        Err(CheckError::NotFound) => Ok(
            CheckPage::Empty(
                EmptyContext { global, target: target.query, target_type: target.readable_type },
            ),
        ),
        Err(CheckError::Failed) => Err(Status::InternalServerError),
        Ok(check) => Ok(
            CheckPage::Findings(
                ResultContext {
                    id,
                    global,
                    found: check.verdict is Blocked,
                    blocked: match check.verdict {
                        CheckVerdict::Blocked(blocked) => Some(blocked),
                        CheckVerdict::Clear => None,
                    },
                    blocked_subnets: check.rkn_subnets,
                    target: target.query,
                    target_type: target.readable_type,
                    whitelist,
                    details: check.details,
                    subnet_size: target.subnet_size,
                },
            ),
        ),
    }
}

impl<B, D, Z> CheckFlow<B, D, Z> {
    /// The step once the result is saved or need not be: a domain is looked up in the whitelist,
    /// anything else is answered.
    pub open spec fn after_saving<W>(self, global: GlobalContext, id: Option<String>) -> CheckStep<
        B,
        D,
        Z,
        W,
    > {
        if self.target.domain is Some {
            CheckStep::Ongoing(CheckFlow { id, action: CheckAction::LookUp, ..self })
        } else {
            CheckStep::Answered(answer(global, self.target, self.outcome, id, None::<W>))
        }
    }

    /// Where the check stands after an event. An event that does not belong to the action that
    /// is to be done changes nothing.
    pub open spec fn stepped<W>(self, global: GlobalContext, event: CheckEvent<W>) -> CheckStep<
        B,
        D,
        Z,
        W,
    > {
        match (self.action, event) {
            (CheckAction::Connect, CheckEvent::Connected(connected)) => {
                if !connected {
                    CheckStep::Answered(Err(Status::InternalServerError))
                } else if self.outcome is Ok {
                    CheckStep::Ongoing(CheckFlow { action: CheckAction::Save, ..self })
                } else {
                    self.after_saving(global, None)
                }
            },
            (CheckAction::Save, CheckEvent::Saved(id)) => self.after_saving(global, id),
            (CheckAction::LookUp, CheckEvent::LookedUp(found)) => {
                match found {
                    Some(whitelist) => CheckStep::Answered(
                        answer(global, self.target, self.outcome, self.id, whitelist),
                    ),
                    None => CheckStep::Answered(Err(Status::InternalServerError)),
                }
            },
            _ => CheckStep::Ongoing(self),
        }
    }

    /// A check that was made and is to be answered.
    pub open spec fn begun(
        target: CheckTarget<Z>,
        outcome: Result<Check<B, D>, CheckError>,
    ) -> Self {
        CheckFlow { target, outcome, id: None, action: CheckAction::Connect }
    }

    /// A check that was made and is to be answered.
    pub fn new(target: CheckTarget<Z>, outcome: Result<Check<B, D>, CheckError>) -> (r: Self)
        ensures
            r == Self::begun(target, outcome),
    {
        CheckFlow { target, outcome, id: None, action: CheckAction::Connect }
    }

    fn answer_now<W>(self, global: GlobalContext, id: Option<String>, whitelist: Option<W>) -> (r:
        Result<CheckPage<B, D, Z, W>, Status>)
        ensures
            r == answer(global, self.target, self.outcome, id, whitelist),
    {
        match self.outcome {
            Err(CheckError::NotFound) => Ok(
                CheckPage::Empty(
                    EmptyContext {
                        global,
                        target: self.target.query,
                        target_type: self.target.readable_type,
                    },
                ),
            ),
            Err(CheckError::Failed) => Err(Status::InternalServerError),
            Ok(check) => {
                let (found, blocked) = match check.verdict {
                    CheckVerdict::Blocked(blocked) => (true, Some(blocked)),
                    CheckVerdict::Clear => (false, None),
                };
                Ok(
                    CheckPage::Findings(
                        ResultContext {
                            id,
                            global,
                            found,
                            blocked,
                            blocked_subnets: check.rkn_subnets,
                            target: self.target.query,
                            target_type: self.target.readable_type,
                            whitelist,
                            details: check.details,
                            subnet_size: self.target.subnet_size,
                        },
                    ),
                )
            },
        }
    }

    fn go_on_after_saving<W>(self, global: GlobalContext, id: Option<String>) -> (r: CheckStep<
        B,
        D,
        Z,
        W,
    >)
        ensures
            r == self.after_saving::<W>(global, id),
    {
        if self.target.domain.is_some() {
            CheckStep::Ongoing(
                CheckFlow {
                    target: self.target,
                    outcome: self.outcome,
                    id,
                    action: CheckAction::LookUp,
                },
            )
        } else {
            CheckStep::Answered(self.answer_now(global, id, None))
        }
    }

    /// Takes what came of an action and says what is to be done next, or answers the visitor.
    pub fn step<W>(self, global: GlobalContext, event: CheckEvent<W>) -> (r: CheckStep<B, D, Z, W>)
        ensures
            r == self.stepped(global, event),
    {
        match (self.action, event) {
            (CheckAction::Connect, CheckEvent::Connected(connected)) => {
                if !connected {
                    CheckStep::Answered(Err(Status::InternalServerError))
                } else if self.outcome.is_ok() {
                    CheckStep::Ongoing(
                        CheckFlow {
                            target: self.target,
                            outcome: self.outcome,
                            id: self.id,
                            action: CheckAction::Save,
                        },
                    )
                } else {
                    self.go_on_after_saving(global, None)
                }
            },
            (CheckAction::Save, CheckEvent::Saved(id)) => self.go_on_after_saving(global, id),
            (CheckAction::LookUp, CheckEvent::LookedUp(found)) => {
                match found {
                    Some(whitelist) => {
                        let CheckFlow { target, outcome, id, action } = self;
                        let flow = CheckFlow { target, outcome, id: None, action };
                        CheckStep::Answered(flow.answer_now(global, id, whitelist))
                    },
                    None => CheckStep::Answered(Err(Status::InternalServerError)),
                }
            },
            _ => CheckStep::Ongoing(self),
        }
    }
}

/// What the actions of one check come to, whichever of them are taken.
pub struct Surroundings<W> {
    pub connected: bool,
    pub saved: Option<String>,
    pub looked_up: Option<Option<W>>,
}

impl<W> Surroundings<W> {
    /// The event that an action leads to.
    pub open spec fn event(self, action: CheckAction) -> CheckEvent<W> {
        match action {
            CheckAction::Connect => CheckEvent::Connected(self.connected),
            CheckAction::Save => CheckEvent::Saved(self.saved),
            CheckAction::LookUp => CheckEvent::LookedUp(self.looked_up),
        }
    }
}

impl<B, D, Z, W> CheckStep<B, D, Z, W> {
    /// Where the check stands once the next action was taken.
    pub open spec fn carried_on(self, global: GlobalContext, around: Surroundings<W>) -> Self {
        match self {
            CheckStep::Ongoing(flow) => flow.stepped(global, around.event(flow.action)),
            CheckStep::Answered(_) => self,
        }
    }
}

/// The answer that a visitor gets: none without a connection or if the whitelist had to be asked
/// and could not be; otherwise the page for what the check found, with the identifier under
/// which the result was saved and with what the whitelist says of a domain.
pub open spec fn final_answer<B, D, Z, W>(
    global: GlobalContext,
    target: CheckTarget<Z>,
    outcome: Result<Check<B, D>, CheckError>,
    around: Surroundings<W>,
) -> Result<CheckPage<B, D, Z, W>, Status> {
    if !around.connected || (target.domain is Some && around.looked_up is None) {
        Err(Status::InternalServerError)
    } else {
        answer(
            global,
            target,
            outcome,
            if outcome is Ok {
                around.saved
            } else {
                None
            },
            if target.domain is Some {
                around.looked_up->0
            } else {
                None
            },
        )
    }
}

/// Every check is answered after at most three actions, and the answer is the one that the
/// visitor is owed.
pub proof fn law_check_is_answered<B, D, Z, W>(
    global: GlobalContext,
    target: CheckTarget<Z>,
    outcome: Result<Check<B, D>, CheckError>,
    around: Surroundings<W>,
)
    ensures
        CheckStep::<B, D, Z, W>::Ongoing(CheckFlow::begun(target, outcome)).carried_on(
            global,
            around,
        ).carried_on(global, around).carried_on(global, around) == CheckStep::Answered(
            final_answer(global, target, outcome, around),
        ),
{
}

/// Without a connection the answer is an internal server error, whatever the check found.
pub proof fn law_no_connection_no_page<B, D, Z, W>(
    global: GlobalContext,
    target: CheckTarget<Z>,
    outcome: Result<Check<B, D>, CheckError>,
    around: Surroundings<W>,
)
    requires
        !around.connected,
    ensures
        final_answer(global, target, outcome, around) == Err::<CheckPage<B, D, Z, W>, Status>(
            Status::InternalServerError,
        ),
{
}

/// A result that could not be saved is shown all the same: the page lacks the identifier and
/// nothing else.
pub proof fn law_failed_save_costs_the_id_alone<B, D, Z, W>(
    global: GlobalContext,
    target: CheckTarget<Z>,
    check: Check<B, D>,
    around: Surroundings<W>,
    id: String,
)
    ensures
        match final_answer::<B, D, Z, W>(
            global,
            target,
            Ok(check),
            Surroundings { saved: Some(id), ..around },
        ) {
            Ok(CheckPage::Findings(page)) => {
                &&& page.id == Some(id)
                &&& final_answer::<B, D, Z, W>(
                    global,
                    target,
                    Ok(check),
                    Surroundings { saved: None, ..around },
                ) == Ok::<CheckPage<B, D, Z, W>, Status>(
                    CheckPage::Findings(ResultContext { id: None, ..page }),
                )
            },
            Ok(CheckPage::Empty(_)) => false,
            Err(status) => final_answer::<B, D, Z, W>(
                global,
                target,
                Ok(check),
                Surroundings { saved: None, ..around },
            ) == Err::<CheckPage<B, D, Z, W>, Status>(status),
        },
{
}

/// A page says that the target was found exactly if it says what blocks it.
pub proof fn law_found_means_blocked<B, D, Z, W>(
    global: GlobalContext,
    target: CheckTarget<Z>,
    check: Check<B, D>,
    around: Surroundings<W>,
)
    ensures
        final_answer::<B, D, Z, W>(global, target, Ok(check), around) matches Ok(
            CheckPage::Findings(page),
        ) ==> (page.found <==> page.blocked is Some) && (page.found
            <==> check.verdict is Blocked),
{
}

impl<B, D, Z> CheckFlow<B, D, Z> {
    /// Only a result is saved, and only a domain is looked up.
    pub open spec fn sound(self) -> bool {
        &&& self.action == CheckAction::Save ==> self.outcome is Ok
        &&& self.action == CheckAction::LookUp ==> self.target.domain is Some
        &&& self.id is Some ==> self.outcome is Ok
    }
}

/// From the beginning of a check on, only results are saved and only domains are looked up.
pub proof fn law_flow_stays_sound<B, D, Z, W>(
    flow: CheckFlow<B, D, Z>,
    global: GlobalContext,
    event: CheckEvent<W>,
)
    requires
        flow.sound(),
    ensures
        CheckFlow::<B, D, Z>::begun(flow.target, flow.outcome).sound(),
        flow.stepped(global, event) matches CheckStep::Ongoing(next) ==> next.sound()
            && next.target == flow.target && next.outcome == flow.outcome,
{
}

/// Where a check stands once its actions were taken, at most three of them.
pub open spec fn run<B, D, Z, W>(
    global: GlobalContext,
    target: CheckTarget<Z>,
    outcome: Result<Check<B, D>, CheckError>,
    around: Surroundings<W>,
) -> CheckStep<B, D, Z, W> {
    CheckStep::<B, D, Z, W>::Ongoing(CheckFlow::begun(target, outcome)).carried_on(
        global,
        around,
    ).carried_on(global, around).carried_on(global, around)
}

/// A check with a result, blocked or clear, is answered with a page of that result: with what the
/// whitelist said of a domain, with the identifier under which the result was saved, and with
/// what the check and the target hold.
pub proof fn law_result_page_holds_what_was_found<B, D, Z, W>(
    global: GlobalContext,
    target: CheckTarget<Z>,
    check: Check<B, D>,
    around: Surroundings<W>,
)
    requires
        around.connected,
        target.domain is Some ==> around.looked_up is Some,
    ensures
        match run(global, target, Ok(check), around) {
            CheckStep::Answered(Ok(CheckPage::Findings(page))) => {
                &&& target.domain is Some ==> around.looked_up == Some(page.whitelist)
                &&& target.domain is None ==> page.whitelist is None
                &&& page.id == around.saved
                &&& page.global == global
                &&& check.verdict matches CheckVerdict::Blocked(by) ==> page.found && page.blocked
                    == Some(by)
                &&& check.verdict is Clear ==> !page.found && page.blocked is None
                &&& page.blocked_subnets == check.rkn_subnets
                &&& page.details == check.details
                &&& page.target == target.query
                &&& page.target_type == target.readable_type
                &&& page.subnet_size == target.subnet_size
            },
            _ => false,
        },
{
}

/// A target that nothing is known of is answered with the page that names it and its type.
pub proof fn law_unknown_target_is_named<B, D, Z, W>(
    global: GlobalContext,
    target: CheckTarget<Z>,
    around: Surroundings<W>,
)
    requires
        around.connected,
        target.domain is Some ==> around.looked_up is Some,
    ensures
        match run::<B, D, Z, W>(global, target, Err(CheckError::NotFound), around) {
            CheckStep::Answered(Ok(CheckPage::Empty(page))) => {
                &&& page.global == global
                &&& page.target == target.query
                &&& page.target_type == target.readable_type
            },
            _ => false,
        },
{
}

/// The answer is an internal server error exactly if the check failed, there was no connection,
/// or a domain could not be looked up; and there is no other error.
pub proof fn law_when_a_check_is_refused<B, D, Z, W>(
    global: GlobalContext,
    target: CheckTarget<Z>,
    outcome: Result<Check<B, D>, CheckError>,
    around: Surroundings<W>,
)
    ensures
        match run(global, target, outcome, around) {
            CheckStep::Answered(Ok(_)) => around.connected && !(outcome matches Err(e)
                && e is Failed) && (target.domain is Some ==> around.looked_up is Some),
            CheckStep::Answered(Err(status)) => status == Status::InternalServerError && (
            !around.connected || (outcome matches Err(e) && e is Failed) || (target.domain is Some
                && around.looked_up is None)),
            CheckStep::Ongoing(_) => false,
        },
{
}

/// A check begins with a connection and without an identifier. Once there is one, a result is
/// saved; then a domain is looked up, and anything else is answered.
pub proof fn law_actions_come_in_turn<B, D, Z, W>(
    global: GlobalContext,
    target: CheckTarget<Z>,
    outcome: Result<Check<B, D>, CheckError>,
    id: Option<String>,
)
    ensures
        ({
            let flow = CheckFlow::begun(target, outcome);
            let connected = flow.stepped(global, CheckEvent::<W>::Connected(true));
            &&& flow.target == target && flow.outcome == outcome
            &&& flow.action == CheckAction::Connect && flow.id is None
            &&& outcome is Ok ==> match connected {
                CheckStep::Ongoing(next) => {
                    &&& next.action == CheckAction::Save
                    &&& match next.stepped(global, CheckEvent::<W>::Saved(id)) {
                        CheckStep::Ongoing(last) => target.domain is Some && last.action
                            == CheckAction::LookUp && last.id == id && last.target == target
                            && last.outcome == outcome,
                        CheckStep::Answered(_) => target.domain is None,
                    }
                },
                CheckStep::Answered(_) => false,
            }
            &&& outcome is Err ==> match connected {
                CheckStep::Ongoing(next) => target.domain is Some && next.action
                    == CheckAction::LookUp && next.id is None,
                CheckStep::Answered(_) => target.domain is None,
            }
        }),
{
}

/// What came of an action that was not to be done changes nothing.
pub proof fn law_events_out_of_turn_change_nothing<B, D, Z, W>(
    flow: CheckFlow<B, D, Z>,
    global: GlobalContext,
    event: CheckEvent<W>,
)
    requires
        flow.action == CheckAction::Connect ==> !(event is Connected),
        flow.action == CheckAction::Save ==> !(event is Saved),
        flow.action == CheckAction::LookUp ==> !(event is LookedUp),
    ensures
        flow.stepped(global, event) == CheckStep::<B, D, Z, W>::Ongoing(flow),
{
}

/// Once a domain with a result was looked up, the page has what the whitelist said, and the
/// identifier, the result and the target of the check, whatever led there.
pub proof fn law_lookup_completes_the_page<B, D, Z, W>(
    flow: CheckFlow<B, D, Z>,
    global: GlobalContext,
    whitelist: Option<W>,
)
    requires
        flow.action == CheckAction::LookUp,
        flow.outcome is Ok,
    ensures
        match flow.stepped(global, CheckEvent::LookedUp(Some(whitelist))) {
            CheckStep::Answered(Ok(CheckPage::Findings(page))) => {
                &&& page.whitelist == whitelist
                &&& page.id == flow.id
                &&& page.global == global
                &&& page.blocked_subnets == flow.outcome->Ok_0.rkn_subnets
                &&& page.details == flow.outcome->Ok_0.details
                &&& page.target == flow.target.query
                &&& page.target_type == flow.target.readable_type
                &&& page.subnet_size == flow.target.subnet_size
                &&& flow.outcome->Ok_0.verdict is Clear ==> !page.found && page.blocked is None
                &&& flow.outcome->Ok_0.verdict matches CheckVerdict::Blocked(by) ==> page.found
                    && page.blocked == Some(by)
            },
            _ => false,
        },
{
}

} // verus!
