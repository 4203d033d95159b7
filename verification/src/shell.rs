//! The application shell: what a loaded page, an exit and the update check ask
//! for.
use vstd::prelude::*;
use vstd::string::StringExecFns;

use crate::host_output;
use crate::text;

verus! {

// ── pages ──────────────────────────────────────────────────────────────────

/// What a page that was loaded asks for.
#[derive(Debug, Clone, PartialEq, Eq)]
pub enum PageAction {
    Nothing,
    /// Write the version of the bundled release on the loading screen.
    SurfaceVersion,
    /// Log that a page of the sidecar is shown.
    HarnessLoaded { log: String },
}

/// `PageAction` as a mathematical value.
pub enum PageView {
    Nothing,
    SurfaceVersion,
    HarnessLoaded { log: Seq<char> },
}

impl View for PageAction {
    type V = PageView;

    open spec fn view(&self) -> PageView {
        match self {
            PageAction::Nothing => PageView::Nothing,
            PageAction::SurfaceVersion => PageView::SurfaceVersion,
            PageAction::HarnessLoaded { log } => PageView::HarnessLoaded { log: log@ },
        }
    }
}

/// What a page at this URL asks for once it is loaded.
pub open spec fn page_action(url: Seq<char>, finished: bool) -> PageView {
    if !finished {
        PageView::Nothing
    } else if text::holds(url, "index.html"@) {
        PageView::SurfaceVersion
    } else if text::begins_with(url, "http://127.0.0.1"@) {
        PageView::HarnessLoaded {
            log: "[launch] harness page loaded ("@ + host_output::redacted(url) + ")"@,
        }
    } else {
        PageView::Nothing
    }
}

/// What a page asks for: the loading screen gets the version, and a page of the
/// sidecar is logged, without its token.
pub fn page_loaded(url: &str, finished: bool) -> (r: PageAction)
    ensures
        r@ == page_action(url@, finished),
{
    if !finished {
        return PageAction::Nothing;
    }
    let chars = text::chars_of(url);
    if text::contains_text(chars.as_slice(), text::chars_of("index.html").as_slice()) {
        PageAction::SurfaceVersion
    } else if text::starts_with(
        chars.as_slice(),
        text::chars_of("http://127.0.0.1").as_slice(),
    ) {
        let mut log = "[launch] harness page loaded (".to_string();
        log.append(host_output::redact_token(url).as_str());
        log.append(")");
        PageAction::HarnessLoaded { log }
    } else {
        PageAction::Nothing
    }
}

// ── exit ───────────────────────────────────────────────────────────────────

/// What the run loop reports, as far as the sidecar is concerned.
#[derive(Debug, Clone, Copy, PartialEq, Eq)]
pub enum RunSignal {
    /// The last window was closed, or an exit was asked for.
    ExitRequested,
    /// The run loop ends.
    Exit,
    /// Anything else.
    Other,
}

/// Whether the sidecar is to be stopped: on every way out, and only there.
pub fn stops_sidecar(signal: RunSignal) -> (r: bool)
    ensures
        r == (signal is ExitRequested || signal is Exit),
{
    match signal {
        RunSignal::ExitRequested => true,
        RunSignal::Exit => true,
        RunSignal::Other => false,
    }
}

// ── update check ───────────────────────────────────────────────────────────

/// What happened to the update check.
#[derive(Debug, Clone, PartialEq, Eq)]
pub enum UpdateEvent {
    /// The updater could not be set up.
    NotConfigured(String),
    /// The check failed.
    CheckFailed(String),
    /// This version is the newest.
    UpToDate(String),
    /// A newer version can be had.
    Available { version: String, current: String },
    /// The user wants to restart into the newer version, or not.
    Answered { restart_now: bool, version: String },
    /// The newer version is installed.
    Installed { version: String },
    /// Downloading or installing failed.
    InstallFailed(String),
}

/// What to do about it, and what is logged first.
#[derive(Debug, Clone, PartialEq, Eq)]
pub enum UpdateAction {
    /// The check is over, and the shell carries on as it was. The line is a
    /// warning or plain information.
    CarryOn { warning: bool, log: String },
    /// Ask the user.
    Ask { log: String, question: String },
    /// Download and install.
    Install { log: String },
    /// Stop the sidecar and restart.
    StopSidecarAndRestart { log: String },
}

/// `UpdateAction` as a mathematical value.
pub enum UpdateView {
    CarryOn { warning: bool, log: Seq<char> },
    Ask { log: Seq<char>, question: Seq<char> },
    Install { log: Seq<char> },
    StopSidecarAndRestart { log: Seq<char> },
}

impl View for UpdateAction {
    type V = UpdateView;

    open spec fn view(&self) -> UpdateView {
        match self {
            UpdateAction::CarryOn { warning, log } => UpdateView::CarryOn {
                warning: *warning,
                log: log@,
            },
            UpdateAction::Ask { log, question } => UpdateView::Ask {
                log: log@,
                question: question@,
            },
            UpdateAction::Install { log } => UpdateView::Install { log: log@ },
            UpdateAction::StopSidecarAndRestart { log } => UpdateView::StopSidecarAndRestart {
                log: log@,
            },
        }
    }
}

/// The title of the question.
pub const UPDATE_TITLE: &'static str = "dsh-desktop update";

/// The answer that restarts.
pub const UPDATE_ACCEPT: &'static str = "Restart";

/// The answer that does not.
pub const UPDATE_DECLINE: &'static str = "Later";

/// What to do about an event of the update check.
pub open spec fn update_action(event: UpdateEvent) -> UpdateView {
    match event {
        UpdateEvent::NotConfigured(error) => UpdateView::CarryOn {
            warning: true,
            log: "[update] check failed (updater config): "@ + error@,
        },
        UpdateEvent::CheckFailed(error) => UpdateView::CarryOn {
            warning: true,
            log: "[update] check failed: "@ + error@,
        },
        UpdateEvent::UpToDate(current) => UpdateView::CarryOn {
            warning: false,
            log: "[update] up to date (v"@ + current@ + ")"@,
        },
        UpdateEvent::Available { version, current } => UpdateView::Ask {
            log: "[update] available v"@ + version@ + " (current v"@ + current@ + ")"@,
            question: "dsh-desktop v"@ + version@ + " is available (installed: v"@ + current@
                + ").\nRestart now to update?"@,
        },
        UpdateEvent::Answered { restart_now, version } => if restart_now {
            UpdateView::Install { log: "[update] downloading v"@ + version@ }
        } else {
            UpdateView::CarryOn { warning: false, log: "[update] postponed by the user"@ }
        },
        UpdateEvent::Installed { version } => UpdateView::StopSidecarAndRestart {
            log: "[update] installed v"@ + version@ + "; restarting"@,
        },
        UpdateEvent::InstallFailed(error) => UpdateView::CarryOn {
            warning: true,
            log: "[update] download/install failed: "@ + error@,
        },
    }
}

/// One step of the update check at launch: every failure is a warning, and the
/// sidecar runs on until a newer version is installed.
pub fn update_step(event: UpdateEvent) -> (r: UpdateAction)
    ensures
        r@ == update_action(event),
{
    match event {
        UpdateEvent::NotConfigured(error) => {
            let mut log = "[update] check failed (updater config): ".to_string();
            log.append(error.as_str());
            UpdateAction::CarryOn { warning: true, log }
        },
        UpdateEvent::CheckFailed(error) => {
            let mut log = "[update] check failed: ".to_string();
            log.append(error.as_str());
            UpdateAction::CarryOn { warning: true, log }
        },
        UpdateEvent::UpToDate(current) => {
            let mut log = "[update] up to date (v".to_string();
            log.append(current.as_str());
            log.append(")");
            UpdateAction::CarryOn { warning: false, log }
        },
        UpdateEvent::Available { version, current } => {
            let mut log = "[update] available v".to_string();
            log.append(version.as_str());
            log.append(" (current v");
            log.append(current.as_str());
            log.append(")");
            let mut question = "dsh-desktop v".to_string();
            question.append(version.as_str());
            question.append(" is available (installed: v");
            question.append(current.as_str());
            question.append(").\nRestart now to update?");
            UpdateAction::Ask { log, question }
        },
        UpdateEvent::Answered { restart_now, version } => if restart_now {
            let mut log = "[update] downloading v".to_string();
            log.append(version.as_str());
            UpdateAction::Install { log }
        } else {
            UpdateAction::CarryOn {
                warning: false,
                log: "[update] postponed by the user".to_string(),
            }
        },
        UpdateEvent::Installed { version } => {
            let mut log = "[update] installed v".to_string();
            log.append(version.as_str());
            log.append("; restarting");
            UpdateAction::StopSidecarAndRestart { log }
        },
        UpdateEvent::InstallFailed(error) => {
            let mut log = "[update] download/install failed: ".to_string();
            log.append(error.as_str());
            UpdateAction::CarryOn { warning: true, log }
        },
    }
}

// ── laws ───────────────────────────────────────────────────────────────────

/// The sidecar is stopped for an update only once the newer version is
/// installed: whatever fails or is declined before leaves it running.
pub proof fn law_only_an_installed_update_stops_the_sidecar(event: UpdateEvent)
    ensures
        update_action(event) is StopSidecarAndRestart <==> event is Installed,
{
}

/// Nothing is installed that the user did not accept.
pub proof fn law_only_an_accepted_update_is_installed(event: UpdateEvent)
    ensures
        update_action(event) is Install <==> event matches UpdateEvent::Answered {
            restart_now: true,
            ..
        },
{
}

/// What is logged of a loaded page shows no token.
pub proof fn law_logged_pages_show_no_token(url: Seq<char>, finished: bool)
    ensures
        page_action(url, finished) matches PageView::HarnessLoaded { log }
            ==> host_output::token_free(log),
{
    reveal_strlit("[launch] harness page loaded (");
    reveal_strlit(")");
    assert(")"@ =~= seq![')']);
    host_output::lemma_framed_is_token_free("[launch] harness page loaded ("@, url, ")"@);
}

/// Only a page that is loaded asks for something: one with `index.html` in its
/// URL for the version, any other of the sidecar for a line in the log, and the
/// rest for nothing.
pub proof fn law_loaded_pages_are_told_apart(
    before: Seq<char>,
    after: Seq<char>,
    rest: Seq<char>,
    other: Seq<char>,
)
    requires
        !text::holds("http://127.0.0.1"@ + rest, "index.html"@),
        !text::holds(other, "index.html"@),
        other.len() < 16 || other.take(16) != "http://127.0.0.1"@,
    ensures
        page_action(before + "index.html"@ + after, true) is SurfaceVersion,
        page_action("http://127.0.0.1"@ + rest, true) == (PageView::HarnessLoaded {
            log: "[launch] harness page loaded ("@ + host_output::redacted(
                "http://127.0.0.1"@ + rest,
            ) + ")"@,
        }),
        page_action(other, true) is Nothing,
        page_action(before, false) is Nothing,
{
    reveal_strlit("http://127.0.0.1");
    text::law_holding(before, "index.html"@, after, other);
    text::law_holding(before, "http://127.0.0.1"@, rest, other);
    if text::begins_with(other, "http://127.0.0.1"@) {
        assert(other.take(16) =~= other.subrange(0, 16));
    }
}

/// The update check, step by step: what is offered is asked about, what is
/// accepted is installed, and what is installed is restarted into; every failure
/// is a warning, and being up to date or declining is none.
pub proof fn law_the_update_step_by_step(version: String, current: String, error: String)
    ensures
        update_action(UpdateEvent::Available { version, current }) == (UpdateView::Ask {
            log: "[update] available v"@ + version@ + " (current v"@ + current@ + ")"@,
            question: "dsh-desktop v"@ + version@ + " is available (installed: v"@ + current@
                + ").\nRestart now to update?"@,
        }),
        update_action(UpdateEvent::Answered { restart_now: true, version }) == (
        UpdateView::Install { log: "[update] downloading v"@ + version@ }),
        update_action(UpdateEvent::Answered { restart_now: false, version }) == (
        UpdateView::CarryOn { warning: false, log: "[update] postponed by the user"@ }),
        update_action(UpdateEvent::Installed { version }) == (UpdateView::StopSidecarAndRestart {
            log: "[update] installed v"@ + version@ + "; restarting"@,
        }),
        update_action(UpdateEvent::UpToDate(current)) == (UpdateView::CarryOn {
            warning: false,
            log: "[update] up to date (v"@ + current@ + ")"@,
        }),
        update_action(UpdateEvent::NotConfigured(error)) == (UpdateView::CarryOn {
            warning: true,
            log: "[update] check failed (updater config): "@ + error@,
        }),
        update_action(UpdateEvent::CheckFailed(error)) == (UpdateView::CarryOn {
            warning: true,
            log: "[update] check failed: "@ + error@,
        }),
        update_action(UpdateEvent::InstallFailed(error)) == (UpdateView::CarryOn {
            warning: true,
            log: "[update] download/install failed: "@ + error@,
        }),
{
}

} // verus!
