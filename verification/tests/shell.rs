//! Pages, exit and the update check.
use dsh_desktop::shell::{
    page_loaded, stops_sidecar, update_step, PageAction, RunSignal, UpdateAction, UpdateEvent,
};

#[test]
fn pages_are_told_apart_by_their_url() {
    assert_eq!(page_loaded("tauri://localhost/index.html", true), PageAction::SurfaceVersion);
    assert_eq!(
        page_loaded("http://127.0.0.1:3080/", true),
        PageAction::HarnessLoaded {
            log: "[launch] harness page loaded (http://127.0.0.1:3080/)".to_string(),
        }
    );
    assert_eq!(
        page_loaded("http://127.0.0.1:3080/index.html", true),
        PageAction::SurfaceVersion
    );
    assert_eq!(page_loaded("https://example.com/", true), PageAction::Nothing);
    assert_eq!(page_loaded("tauri://localhost/index.html", false), PageAction::Nothing);
}

#[test]
fn a_logged_page_shows_no_token() {
    assert_eq!(
        page_loaded("http://127.0.0.1:3080/?token=abc", true),
        PageAction::HarnessLoaded {
            log: "[launch] harness page loaded (http://127.0.0.1:3080/?token=[redacted])"
                .to_string(),
        }
    );
}

#[test]
fn the_sidecar_is_stopped_on_every_way_out() {
    assert!(stops_sidecar(RunSignal::ExitRequested));
    assert!(stops_sidecar(RunSignal::Exit));
    assert!(!stops_sidecar(RunSignal::Other));
}

#[test]
fn an_update_is_asked_for_installed_and_only_then_restarted_into() {
    let text = |s: &str| s.to_string();
    assert_eq!(
        update_step(UpdateEvent::Available {
            version: text("2.0"),
            current: text("1.0"),
        }),
        UpdateAction::Ask {
            log: text("[update] available v2.0 (current v1.0)"),
            question: text(
                "dsh-desktop v2.0 is available (installed: v1.0).\nRestart now to update?"
            ),
        }
    );
    assert_eq!(
        update_step(UpdateEvent::Answered {
            restart_now: true,
            version: text("2.0"),
        }),
        UpdateAction::Install {
            log: text("[update] downloading v2.0"),
        }
    );
    assert_eq!(
        update_step(UpdateEvent::Installed {
            version: text("2.0"),
        }),
        UpdateAction::StopSidecarAndRestart {
            log: text("[update] installed v2.0; restarting"),
        }
    );
}

#[test]
fn every_other_outcome_of_the_update_check_carries_on() {
    let text = |s: &str| s.to_string();
    for (event, warning, log) in [
        (
            UpdateEvent::NotConfigured(text("x")),
            true,
            "[update] check failed (updater config): x",
        ),
        (UpdateEvent::CheckFailed(text("x")), true, "[update] check failed: x"),
        (UpdateEvent::UpToDate(text("1.0")), false, "[update] up to date (v1.0)"),
        (
            UpdateEvent::Answered {
                restart_now: false,
                version: text("2.0"),
            },
            false,
            "[update] postponed by the user",
        ),
        (
            UpdateEvent::InstallFailed(text("x")),
            true,
            "[update] download/install failed: x",
        ),
    ] {
        assert_eq!(
            update_step(event),
            UpdateAction::CarryOn {
                warning,
                log: text(log),
            }
        );
    }
}
