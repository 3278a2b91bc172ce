use chrono::{DateTime, Utc};
use website::check::{
    Check, CheckAction, CheckError, CheckEvent, CheckFlow, CheckPage, CheckStep, CheckTarget,
    CheckVerdict, ResultContext,
};
use website::config::{
    migrations_succeeded, next_refresh_action, server_config, ConfigError, RefreshAction,
    RefreshEvent, ServerConfig,
};
use website::feedback::{feedback, feedback_answer, report_on};
use website::pages::{
    healthcheck, index, page, page_template, vendor_cache_policy, GlobalContext,
};
use website::status::{api_error, error_context, error_page, json_error, Status};

type Step = CheckStep<&'static str, u8, u32, &'static str>;
type Flow = CheckFlow<&'static str, u8, u32>;

fn global() -> GlobalContext {
    GlobalContext::new("1.2.3")
}

fn target(domain: Option<&str>) -> CheckTarget<u32> {
    CheckTarget {
        query: "example.com".to_string(),
        readable_type: "domain".to_string(),
        domain: domain.map(str::to_string),
        subnet_size: 256,
    }
}

fn found(verdict: CheckVerdict<&'static str>) -> Result<Check<&'static str, u8>, CheckError> {
    Ok(Check { verdict, rkn_subnets: vec!["10.0.0.0/8".to_string()], details: 9 })
}

fn go_on(step: Step) -> Flow {
    match step {
        CheckStep::Ongoing(flow) => flow,
        CheckStep::Answered(_) => panic!("answered too early"),
    }
}

fn result_page(step: Step) -> ResultContext<&'static str, u8, u32, &'static str> {
    match step {
        CheckStep::Answered(Ok(CheckPage::Findings(page))) => page,
        _ => panic!("no result page"),
    }
}

fn refused(step: Step) -> Status {
    match step {
        CheckStep::Answered(Err(status)) => status,
        _ => panic!("not refused"),
    }
}

fn connected(flow: Flow) -> Step {
    flow.step(global(), CheckEvent::Connected(true))
}

#[test]
fn blocked_domain_is_saved_looked_up_and_shown() {
    let flow = Flow::new(target(Some("example.com")), found(CheckVerdict::Blocked("list")));
    assert_eq!(flow.action, CheckAction::Connect);
    let flow = go_on(connected(flow));
    assert_eq!(flow.action, CheckAction::Save);
    let flow = go_on(flow.step(global(), CheckEvent::Saved(Some("id-1".to_string()))));
    assert_eq!(flow.action, CheckAction::LookUp);
    let page = result_page(flow.step(global(), CheckEvent::LookedUp(Some(Some("listed")))));
    assert_eq!(page.id.as_deref(), Some("id-1"));
    assert_eq!(page.global.version, "1.2.3");
    assert!(page.found);
    assert_eq!(page.blocked, Some("list"));
    assert_eq!(page.blocked_subnets, ["10.0.0.0/8"]);
    assert_eq!(page.target, "example.com");
    assert_eq!(page.target_type, "domain");
    assert_eq!(page.whitelist, Some("listed"));
    assert_eq!(page.details, 9);
    assert_eq!(page.subnet_size, 256);
}

#[test]
fn clear_address_is_shown_without_lookup() {
    let flow = go_on(connected(Flow::new(target(None), found(CheckVerdict::Clear))));
    assert_eq!(flow.action, CheckAction::Save);
    let page = result_page(flow.step(global(), CheckEvent::Saved(Some("id-2".to_string()))));
    assert!(!page.found);
    assert_eq!(page.blocked, None);
    assert_eq!(page.whitelist, None);
    assert_eq!(page.id.as_deref(), Some("id-2"));
}

#[test]
fn failed_save_costs_the_id_alone() {
    let flow = go_on(connected(Flow::new(target(None), found(CheckVerdict::Blocked("list")))));
    let page = result_page(flow.step(global(), CheckEvent::Saved(None)));
    assert_eq!(page.id, None);
    assert!(page.found);
    assert_eq!(page.blocked, Some("list"));
}

#[test]
fn unknown_address_is_answered_with_the_empty_page() {
    match connected(Flow::new(target(None), Err(CheckError::NotFound))) {
        CheckStep::Answered(Ok(CheckPage::Empty(page))) => {
            assert_eq!(page.target, "example.com");
            assert_eq!(page.target_type, "domain");
            assert_eq!(page.global.version, "1.2.3");
        }
        _ => panic!("no empty page"),
    }
}

#[test]
fn unknown_domain_is_looked_up_but_not_saved() {
    let flow = go_on(connected(Flow::new(target(Some("a")), Err(CheckError::NotFound))));
    assert_eq!(flow.action, CheckAction::LookUp);
    let step: Step = flow.step(global(), CheckEvent::LookedUp(Some(None)));
    assert!(matches!(step, CheckStep::Answered(Ok(CheckPage::Empty(_)))));
}

#[test]
fn no_connection_is_an_internal_error() {
    for outcome in [found(CheckVerdict::Clear), Err(CheckError::NotFound)] {
        let flow = Flow::new(target(None), outcome);
        let step: Step = flow.step(global(), CheckEvent::Connected(false));
        assert_eq!(refused(step), Status::InternalServerError);
    }
}

#[test]
fn failed_lookup_is_an_internal_error() {
    let flow = go_on(connected(Flow::new(target(Some("a")), Err(CheckError::NotFound))));
    assert_eq!(
        refused(flow.step(global(), CheckEvent::LookedUp(None))),
        Status::InternalServerError
    );
}

#[test]
fn failed_check_is_an_internal_error() {
    assert_eq!(
        refused(connected(Flow::new(target(None), Err(CheckError::Failed)))),
        Status::InternalServerError
    );
    let flow = go_on(connected(Flow::new(target(Some("a")), Err(CheckError::Failed))));
    assert_eq!(flow.action, CheckAction::LookUp);
    assert_eq!(
        refused(flow.step(global(), CheckEvent::LookedUp(Some(None)))),
        Status::InternalServerError
    );
}

#[test]
fn events_out_of_turn_change_nothing() {
    let flow = Flow::new(target(None), found(CheckVerdict::Clear));
    let step: Step = flow.step(global(), CheckEvent::Saved(Some("x".to_string())));
    let flow = go_on(step);
    assert_eq!(flow.action, CheckAction::Connect);
    assert_eq!(flow.id, None);
}

#[test]
fn feedback_names_the_check_by_a_uuid() {
    for text in [
        "936da01f-9abd-4d9d-80c7-02af85c822a8",
        "936da01f9abd4d9d80c702af85c822a8",
        "{936DA01F-9ABD-4D9D-80C7-02AF85C822A8}",
        "urn:uuid:936da01f-9abd-4d9d-80c7-02af85c822a8",
    ] {
        let report = feedback(text, true, "192.0.2.1".to_string()).unwrap();
        assert_eq!(report.id, 0x936da01f9abd4d9d80c702af85c822a8);
        assert_eq!(report.source_ip, "192.0.2.1");
        assert!(report.works);
    }
    let report = feedback("00000000-0000-0000-0000-000000000001", false, String::new()).unwrap();
    assert_eq!(report.id, 1);
    assert!(!report.works);
}

#[test]
fn feedback_without_a_uuid_is_refused() {
    for text in ["", "1", "936da01f-9abd-4d9d-80c7-02af85c822ag", "936da01f-9abd-4d9d-80c7"] {
        assert_eq!(
            feedback(text, true, "192.0.2.1".to_string()).unwrap_err(),
            Status::BadRequest
        );
    }
    assert_eq!(report_on(None, true, String::new()).unwrap_err(), Status::BadRequest);
    assert_eq!(report_on(Some(5), true, String::new()).unwrap().id, 5);
}

#[test]
fn feedback_is_answered_by_whether_it_was_stored() {
    assert_eq!(feedback_answer(true), Ok(()));
    assert_eq!(feedback_answer(false), Err(Status::InternalServerError));
}

#[test]
fn errors_are_answered_with_their_reason() {
    let missing = api_error(404);
    assert_eq!((missing.code, missing.info.as_str()), (404, "Not Found"));
    assert_eq!(api_error(500).info, "Internal Server Error");
    assert_eq!(api_error(599).info, "Server Error");
    let shown = error_page(global(), 400);
    assert_eq!((shown.status, shown.reason.as_str()), (400, "Bad Request"));
    assert_eq!(shown.global.version, "1.2.3");
    assert_eq!(json_error(7, "why".to_string()).info, "why");
    assert_eq!(error_context(global(), 7, "why".to_string()).reason, "why");
}

#[test]
fn statuses_have_their_codes() {
    assert_eq!(Status::Success.code(), 200);
    assert_eq!(Status::BadRequest.code(), 400);
    assert_eq!(Status::InternalServerError.code(), 500);
}

#[test]
fn start_page_shows_grouped_totals() {
    let time: Option<DateTime<Utc>> = DateTime::from_timestamp(1_700_000_000, 0);
    let shown = index(global(), 1234567, 42, time);
    assert_eq!(shown.domain_count, "1 234 567");
    assert_eq!(shown.v4_count, "42");
    assert_eq!(shown.last_update, time);
    assert_eq!(shown.global.version, "1.2.3");
}

#[test]
fn pages_have_their_own_templates() {
    assert_eq!(page_template("faq"), "pages/faq");
    assert_eq!(page_template(""), "pages/");
    assert_ne!(page_template("a"), page_template("b"));
    let shown = page(global(), page_template("faq"), true).unwrap();
    assert_eq!(shown.template, "pages/faq");
    assert_eq!(shown.global.version, "1.2.3");
    assert!(page(global(), page_template("faq"), false).is_none());
}

#[test]
fn health_is_known_after_the_first_update() {
    let never: Option<DateTime<Utc>> = None;
    assert_eq!(
        healthcheck(&never),
        (Status::InternalServerError, "LOADING DATABASES".to_string())
    );
    assert_eq!(healthcheck(&Some(Utc::now())), (Status::Success, "OK".to_string()));
}

#[test]
fn vendor_scripts_are_kept_for_a_week() {
    let policy = vendor_cache_policy();
    assert_eq!(policy.max_age, 604800);
    assert!(!policy.must_revalidate);
}

#[test]
fn settings_have_defaults() {
    assert_eq!(
        server_config(None, None, None),
        Ok(ServerConfig {
            interval_seconds: 21600,
            max_connections: 100,
            min_connections: 10,
            acquire_timeout_seconds: 5,
            idle_timeout_seconds: 60,
        })
    );
    let set = |s: &str| Some(s.to_string());
    let config = server_config(set("60"), set("+7"), set("003")).unwrap();
    assert_eq!(config.interval_seconds, 60);
    assert_eq!((config.max_connections, config.min_connections), (7, 3));
}

#[test]
fn settings_that_are_no_numbers_are_errors() {
    let set = |s: &str| Some(s.to_string());
    assert_eq!(server_config(set("6h"), set("x"), set("x")), Err(ConfigError::Interval));
    assert_eq!(server_config(set(""), None, None), Err(ConfigError::Interval));
    assert_eq!(
        server_config(None, set("4294967296"), set("x")),
        Err(ConfigError::MaxConnections)
    );
    assert_eq!(server_config(None, set("1"), set("-1")), Err(ConfigError::MinConnections));
}

#[test]
fn blocklist_is_refreshed_after_a_download() {
    assert_eq!(next_refresh_action(RefreshEvent::Tick), RefreshAction::Download);
    assert_eq!(next_refresh_action(RefreshEvent::Downloaded), RefreshAction::UpdateChecker);
    assert_eq!(next_refresh_action(RefreshEvent::Updated), RefreshAction::RefreshBlocklist);
    assert_eq!(next_refresh_action(RefreshEvent::Refreshed), RefreshAction::AwaitTick);
    assert_eq!(next_refresh_action(RefreshEvent::DownloadFailed), RefreshAction::AwaitTick);
}

#[test]
fn server_starts_after_its_migrations() {
    assert!(migrations_succeeded(Some(true)));
    assert!(!migrations_succeeded(Some(false)));
    assert!(!migrations_succeeded(None));
}
