use commeatus::cli::{check_config_size, parse_command, usage, valid_message, Command};
use commeatus::error::{Error, ErrorKind};
use commeatus::platform::{
    InterceptionMode, InterceptionRequest, NetworkBackend, PlatformCapabilities,
    PlatformEvidence, PlatformKind, ProbedBackend, SupportLevel,
};
use commeatus::server::{
    exit_error, limit_message, AcceptErrors, AcceptStep, ConnectionLimiter, ListenerExit,
};
use commeatus::time::Duration;

#[test]
fn connection_limiter_never_exceeds_limit_and_releases_permits() {
    let mut limiter = ConnectionLimiter::new(2);
    let first = limiter.try_acquire().unwrap();
    let second = limiter.try_acquire().unwrap();
    assert!(limiter.try_acquire().is_none());
    limiter.release(first);
    let third = limiter.try_acquire().unwrap();
    assert!(limiter.try_acquire().is_none());
    limiter.release(second);
    limiter.release(third);
    assert_eq!(limiter.active(), 0);
}

#[test]
fn accept_failures_back_off_and_then_stop() {
    let refused = Error::new(ErrorKind::ConnectionAborted, "aborted");
    let mut errors = AcceptErrors::new();
    assert!(matches!(
        errors.failed(&Error::new(ErrorKind::Interrupted, "signal")),
        AcceptStep::Again
    ));
    let mut retries = 0;
    loop {
        match errors.failed(&refused) {
            AcceptStep::Retry { backoff, .. } => {
                retries += 1;
                assert_eq!(backoff, Duration::from_millis(100));
            }
            AcceptStep::Stop { .. } => break,
            AcceptStep::Again => panic!("a failure was passed over"),
        }
    }
    assert_eq!(retries, 7);
    let mut errors = AcceptErrors::new();
    errors.failed(&refused);
    errors.accepted();
    assert!(matches!(errors.failed(&refused), AcceptStep::Retry { .. }));
}

#[test]
fn listener_failures_are_described() {
    let address = "127.0.0.1:1080".parse().unwrap();
    assert_eq!(
        exit_error(ListenerExit::Returned(address)).text(),
        "listener 127.0.0.1:1080 exited unexpectedly"
    );
    let failed = exit_error(ListenerExit::Failed(
        address,
        Error::new(ErrorKind::AddrInUse, "taken"),
    ));
    assert_eq!(failed.kind(), ErrorKind::AddrInUse);
    assert_eq!(failed.text(), "listener 127.0.0.1:1080 failed: taken");
    assert_eq!(
        exit_error(ListenerExit::AllGone).text(),
        "all listener supervisors terminated"
    );
    assert_eq!(
        limit_message(address),
        "commeatus: connection from 127.0.0.1:1080 rejected: active connection limit 256 reached"
    );
}

fn capabilities() -> PlatformCapabilities {
    PlatformCapabilities {
        platform: PlatformKind::Linux,
        tun: SupportLevel::Available,
        tproxy: SupportLevel::Unknown,
        ebpf: SupportLevel::Unavailable,
        btf: SupportLevel::Unavailable,
        bpffs: SupportLevel::Unavailable,
    }
}

fn evidence() -> PlatformEvidence {
    PlatformEvidence {
        tun_device: false,
        btf_image: false,
        bpf_file_system: false,
        bpf_setting: false,
        ip_tables_targets: None,
        modules: None,
    }
}

#[test]
fn explicit_proxy_is_always_valid() {
    let backend = ProbedBackend::from_capabilities(capabilities());
    assert!(backend
        .validate(&InterceptionRequest {
            mode: InterceptionMode::ExplicitProxy,
        })
        .is_ok());
}

#[test]
fn unknown_is_not_silently_treated_as_available() {
    let backend = ProbedBackend::from_capabilities(capabilities());
    let error = backend
        .validate(&InterceptionRequest {
            mode: InterceptionMode::Tproxy,
        })
        .unwrap_err();
    assert_eq!(error.support(), SupportLevel::Unknown);
}

#[test]
fn current_probe_is_non_destructive() {
    let report = PlatformCapabilities::probe(PlatformKind::current("linux"), &evidence());
    assert_eq!(report.platform, PlatformKind::current("linux"));
}

#[test]
fn probes_follow_the_evidence() {
    let report = PlatformCapabilities::probe(PlatformKind::Other, &evidence());
    assert_eq!(report.tun, SupportLevel::Unknown);
    let report = PlatformCapabilities::probe(PlatformKind::Linux, &evidence());
    assert_eq!(report.tun, SupportLevel::Unavailable);
    let seen = PlatformEvidence {
        tun_device: true,
        ip_tables_targets: Some("LOG\nTPROXY\n".to_owned()),
        ..evidence()
    };
    let report = PlatformCapabilities::probe(PlatformKind::Linux, &seen);
    assert_eq!(report.tun, SupportLevel::Available);
    assert_eq!(report.tproxy, SupportLevel::Available);
    assert_eq!(PlatformKind::current("android"), PlatformKind::Android);
    assert_eq!(PlatformKind::current("windows"), PlatformKind::Other);
    let backend = ProbedBackend::current(PlatformKind::Linux, &seen);
    assert!(backend
        .validate(&InterceptionRequest {
            mode: InterceptionMode::Tun,
        })
        .is_ok());
}

#[test]
fn the_platform_report_is_one_line_for_each_capability() {
    assert_eq!(
        capabilities().report(),
        "platform: linux\ntun: available\ntproxy: unknown\nebpf: unavailable\nbtf: unavailable\nbpffs: unavailable\n"
    );
}

fn arguments(words: &[&str]) -> Vec<String> {
    words.iter().map(|word| (*word).to_owned()).collect()
}

#[test]
fn commands_are_read_from_the_arguments() {
    assert!(matches!(parse_command(&arguments(&["version"])), Ok(Command::Version)));
    assert!(matches!(
        parse_command(&arguments(&["run", "--config", "a.conf"])),
        Ok(Command::Run(path)) if path == "a.conf"
    ));
    assert!(matches!(
        parse_command(&arguments(&["check", "--config", "a.conf"])),
        Ok(Command::Check(path)) if path == "a.conf"
    ));
    assert!(matches!(parse_command(&arguments(&["platform"])), Ok(Command::Platform)));
    assert!(matches!(parse_command(&arguments(&["--help"])), Ok(Command::Help)));
    assert!(parse_command(&arguments(&["platform", "now"])).is_err());
    assert!(parse_command(&arguments(&["run"])).is_err());
    assert!(parse_command(&arguments(&["fly"])).is_err());
    assert!(usage("1.2.3").starts_with("Commeatus 1.2.3\n"));
    assert!(usage("1.2.3").ends_with("\n  commeatus platform\n"));
    assert!(check_config_size("a.conf", 1_048_576).is_ok());
    assert_eq!(
        check_config_size("a.conf", 1_048_577).unwrap_err(),
        "config a.conf exceeds 1048576 byte limit"
    );
    assert_eq!(valid_message(2), "configuration valid: 2 listener(s)");
}
