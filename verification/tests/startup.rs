use byo_inference::startup::{
    check_forwarding, forwarding_outcome, new_window_url, urls_to_forward, AppArgs,
    StartupArgsForwardingError,
};

fn args(finish_update: bool, urls: &[&str]) -> AppArgs {
    AppArgs {
        finish_update,
        urls: urls.iter().map(|url| (*url).to_owned()).collect(),
    }
}

#[test]
fn nothing_is_forwarded_after_an_update() {
    let error = check_forwarding(&args(true, &["warp://a"])).expect_err("an update ends here");
    assert!(matches!(error, StartupArgsForwardingError::IgnoredAfterAutoUpdate));
    assert_eq!(error.message(), "should not forward arguments after an auto-update");
    assert!(check_forwarding(&args(false, &[])).is_ok());

    let outcome = urls_to_forward(&args(true, &["warp://a"]), Ok(false), "warp", None);
    assert!(matches!(outcome, Err(StartupArgsForwardingError::IgnoredAfterAutoUpdate)));
}

#[test]
fn a_sole_instance_forwards_nothing() {
    let error = urls_to_forward(&args(false, &["warp://a"]), Ok(true), "warp", None)
        .expect_err("there is nobody to forward to");
    assert!(matches!(error, StartupArgsForwardingError::NoExistingInstance));
    assert_eq!(error.message(), "there is no other instance of Warp");
}

#[test]
fn a_failed_look_for_instances_is_reported() {
    let error = urls_to_forward(&args(false, &[]), Err("denied".to_owned()), "warp", None)
        .expect_err("the system failed");
    assert!(
        matches!(&error, StartupArgsForwardingError::WindowsError(cause) if cause == "denied")
    );
    assert_eq!(error.message(), "Win32 error");
}

#[test]
fn given_urls_are_forwarded_as_they_are() {
    let given = args(false, &["warp://action/one", "warp://action/two"]);
    let urls = urls_to_forward(&given, Ok(false), "warp", Some("/home")).expect("forwarded");
    assert_eq!(urls, given.urls);
}

#[test]
fn without_urls_a_new_window_is_opened_here() {
    assert_eq!(new_window_url("warp", None), "warp://action/new_window");
    assert_eq!(
        new_window_url("warp", Some("/home/me")),
        "warp://action/new_window?path=/home/me"
    );

    let urls = urls_to_forward(&args(false, &[]), Ok(false), "warp", Some("/home/me"));
    assert_eq!(
        urls.expect("forwarded"),
        vec!["warp://action/new_window?path=/home/me"]
    );
    let urls = urls_to_forward(&args(false, &[]), Ok(false), "warp", Some("/a b"));
    assert_eq!(
        urls.expect("forwarded"),
        vec!["warp://action/new_window?path=/a%20b"],
        "the URL is forwarded as it is serialized"
    );
    let urls = urls_to_forward(&args(false, &[]), Ok(false), "warp", None);
    assert_eq!(urls.expect("forwarded"), vec!["warp://action/new_window"]);
}

#[test]
fn a_scheme_that_makes_no_url_is_reported() {
    let error = urls_to_forward(&args(false, &[]), Ok(false), "1", None)
        .expect_err("a scheme starts with a letter");
    assert!(matches!(
        &error,
        StartupArgsForwardingError::CouldNotCreateUrl(url::ParseError::RelativeUrlWithoutBase)
    ));
    assert_eq!(error.message(), "failed to construct url");
}

#[test]
fn a_failure_to_send_is_reported() {
    assert!(forwarding_outcome(Ok(())).is_ok());
    let error = forwarding_outcome(Err("closed".to_owned())).expect_err("nothing was sent");
    assert!(matches!(&error, StartupArgsForwardingError::IpcError(cause) if cause == "closed"));
    assert_eq!(error.message(), "IPC Client failed to send message");
}
