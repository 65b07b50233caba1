//! What becomes of the command line when another instance may already be running.

use crate::lists;
use vstd::prelude::*;

verus! {

/// `url::ParseError`.
#[verifier::external_type_specification]
#[verifier::external_body]
pub struct ExParseError(url::ParseError);

/// Why startup arguments were not forwarded.
#[derive(Debug)]
pub enum StartupArgsForwardingError {
    IgnoredAfterAutoUpdate,
    NoExistingInstance,
    CouldNotCreateUrl(url::ParseError),
    /// The other instance could not be reached; why, in words.
    IpcError(String),
    /// The system could not tell whether there is another instance; why, in words.
    WindowsError(String),
}

impl StartupArgsForwardingError {
    /// What the error says.
    pub open spec fn text(&self) -> Seq<char> {
        match *self {
            StartupArgsForwardingError::IgnoredAfterAutoUpdate => {
                "should not forward arguments after an auto-update"@
            },
            StartupArgsForwardingError::NoExistingInstance => {
                "there is no other instance of Warp"@
            },
            StartupArgsForwardingError::CouldNotCreateUrl(_) => "failed to construct url"@,
            StartupArgsForwardingError::IpcError(_) => "IPC Client failed to send message"@,
            StartupArgsForwardingError::WindowsError(_) => "Win32 error"@,
        }
    }

    /// What the error says.
    pub fn message(&self) -> (message: &'static str)
        ensures
            message@ == self.text(),
    {
        match self {
            StartupArgsForwardingError::IgnoredAfterAutoUpdate => {
                "should not forward arguments after an auto-update"
            },
            StartupArgsForwardingError::NoExistingInstance => "there is no other instance of Warp",
            StartupArgsForwardingError::CouldNotCreateUrl(_) => "failed to construct url",
            StartupArgsForwardingError::IpcError(_) => "IPC Client failed to send message",
            StartupArgsForwardingError::WindowsError(_) => "Win32 error",
        }
    }
}

/// The command line, as far as forwarding goes.
#[derive(Debug)]
pub struct AppArgs {
    /// Whether this process was started to finish an update.
    pub finish_update: bool,
    /// The URLs to open.
    pub urls: Vec<String>,
}

/// What `url::Url::parse` makes of a text: the URL as it is serialized, or the error.
pub uninterp spec fn read_url(text: Seq<char>) -> Result<Seq<char>, url::ParseError>;

/// `url::Url::parse`, and the URL's serialization: a function of the text alone.
#[verifier::external_body]
fn parse_url(text: &str) -> (url: Result<String, url::ParseError>)
    ensures
        match url {
            Ok(url) => read_url(text@) == Ok::<Seq<char>, url::ParseError>(url@),
            Err(error) => read_url(text@) == Err::<Seq<char>, url::ParseError>(error),
        },
{
    url::Url::parse(text).map(String::from)
}

/// The text of the URL that opens a new window, in the given directory where one is known.
pub open spec fn new_window_text(
    url_scheme: Seq<char>,
    current_dir: Option<Seq<char>>,
) -> Seq<char> {
    url_scheme + "://action/new_window"@ + match current_dir {
        Some(dir) => "?path="@ + dir,
        None => Seq::empty(),
    }
}

/// The text of the URL that opens a new window.
pub fn new_window_url(url_scheme: &str, current_dir: Option<&str>) -> (url: String)
    ensures
        url@ == new_window_text(
            url_scheme@,
            match current_dir {
                Some(dir) => Some(dir@),
                None => None,
            },
        ),
{
    let mut url = url_scheme.to_owned();
    url.append("://action/new_window");
    let ghost opening = url@;
    match current_dir {
        Some(dir) => {
            url.append("?path=");
            url.append(dir);
            assert(url@ =~= opening + ("?path="@ + dir@));
        },
        None => {
            assert(url@ =~= opening + Seq::empty());
        },
    }
    url
}

/// Whether there is anything to forward: not after an update.
pub fn check_forwarding(args: &AppArgs) -> (checked: Result<(), StartupArgsForwardingError>)
    ensures
        checked == (if args.finish_update {
            Err::<(), StartupArgsForwardingError>(
                StartupArgsForwardingError::IgnoredAfterAutoUpdate,
            )
        } else {
            Ok(())
        }),
{
    if args.finish_update {
        Err(StartupArgsForwardingError::IgnoredAfterAutoUpdate)
    } else {
        Ok(())
    }
}

/// What becomes of the command line, as text.
pub enum ForwardingView {
    Urls(Seq<Seq<char>>),
    IgnoredAfterAutoUpdate,
    NoExistingInstance,
    CouldNotCreateUrl(url::ParseError),
    IpcError(Seq<char>),
    WindowsError(Seq<char>),
}

/// What URLs, or the reason for none, say.
pub open spec fn forwarding_view(
    urls: Result<Vec<String>, StartupArgsForwardingError>,
) -> ForwardingView {
    match urls {
        Ok(urls) => ForwardingView::Urls(lists::texts(urls@)),
        Err(StartupArgsForwardingError::IgnoredAfterAutoUpdate) => {
            ForwardingView::IgnoredAfterAutoUpdate
        },
        Err(StartupArgsForwardingError::NoExistingInstance) => ForwardingView::NoExistingInstance,
        Err(StartupArgsForwardingError::CouldNotCreateUrl(error)) => {
            ForwardingView::CouldNotCreateUrl(error)
        },
        Err(StartupArgsForwardingError::IpcError(cause)) => ForwardingView::IpcError(cause@),
        Err(StartupArgsForwardingError::WindowsError(cause)) => {
            ForwardingView::WindowsError(cause@)
        },
    }
}

/// What becomes of a command line.
pub open spec fn forwarding_of(
    finish_update: bool,
    urls: Seq<Seq<char>>,
    sole_running_instance: Result<bool, Seq<char>>,
    url_scheme: Seq<char>,
    current_dir: Option<Seq<char>>,
) -> ForwardingView {
    if finish_update {
        ForwardingView::IgnoredAfterAutoUpdate
    } else {
        match sole_running_instance {
            Err(cause) => ForwardingView::WindowsError(cause),
            Ok(true) => ForwardingView::NoExistingInstance,
            Ok(false) => if urls.len() > 0 {
                ForwardingView::Urls(urls)
            } else {
                match read_url(new_window_text(url_scheme, current_dir)) {
                    Ok(url) => ForwardingView::Urls(seq![url]),
                    Err(error) => ForwardingView::CouldNotCreateUrl(error),
                }
            },
        }
    }
}

/// The URLs to forward, once the system has told whether this is the sole running instance. With
/// no URL on the command line, one is made that opens a new window in this process's directory.
pub fn urls_to_forward(
    args: &AppArgs,
    sole_running_instance: Result<bool, String>,
    url_scheme: &str,
    current_dir: Option<&str>,
) -> (urls: Result<Vec<String>, StartupArgsForwardingError>)
    ensures
        if args.finish_update {
            urls == Err::<Vec<String>, StartupArgsForwardingError>(
                StartupArgsForwardingError::IgnoredAfterAutoUpdate,
            )
        } else {
            match sole_running_instance {
                Err(cause) => urls == Err::<Vec<String>, StartupArgsForwardingError>(
                    StartupArgsForwardingError::WindowsError(cause),
                ),
                Ok(true) => urls == Err::<Vec<String>, StartupArgsForwardingError>(
                    StartupArgsForwardingError::NoExistingInstance,
                ),
                Ok(false) => if args.urls@.len() > 0 {
                    urls matches Ok(urls) && lists::texts(urls@) == lists::texts(args.urls@)
                } else {
                    match read_url(
                        new_window_text(
                            url_scheme@,
                            match current_dir {
                                Some(dir) => Some(dir@),
                                None => None,
                            },
                        ),
                    ) {
                        Ok(url) => urls matches Ok(urls) && lists::texts(urls@) == seq![url],
                        Err(error) => urls == Err::<Vec<String>, StartupArgsForwardingError>(
                            StartupArgsForwardingError::CouldNotCreateUrl(error),
                        ),
                    }
                },
            }
        },
        forwarding_view(urls) == forwarding_of(
            args.finish_update,
            lists::texts(args.urls@),
            match sole_running_instance {
                Ok(sole) => Ok(sole),
                Err(cause) => Err(cause@),
            },
            url_scheme@,
            match current_dir {
                Some(dir) => Some(dir@),
                None => None,
            },
        ),
{
    match check_forwarding(args) {
        Err(error) => {
            return Err(error);
        },
        Ok(()) => {},
    }
    match sole_running_instance {
        Err(cause) => {
            return Err(StartupArgsForwardingError::WindowsError(cause));
        },
        Ok(true) => {
            return Err(StartupArgsForwardingError::NoExistingInstance);
        },
        Ok(false) => {},
    }
    if args.urls.len() > 0 {
        return Ok(lists::copied(args.urls.as_slice()));
    }
    match parse_url(new_window_url(url_scheme, current_dir).as_str()) {
        Ok(url) => {
            let mut urls: Vec<String> = Vec::new();
            let ghost only = url@;
            urls.push(url);
            assert(lists::texts(urls@) =~= seq![only]);
            Ok(urls)
        },
        Err(error) => Err(StartupArgsForwardingError::CouldNotCreateUrl(error)),
    }
}

/// What forwarding came to, once the URLs were sent.
pub fn forwarding_outcome(sent: Result<(), String>) -> (outcome: Result<
    (),
    StartupArgsForwardingError,
>)
    ensures
        outcome == (match sent {
            Ok(()) => Ok::<(), StartupArgsForwardingError>(()),
            Err(cause) => Err(StartupArgsForwardingError::IpcError(cause)),
        }),
{
    match sent {
        Ok(()) => Ok(()),
        Err(cause) => Err(StartupArgsForwardingError::IpcError(cause)),
    }
}

/// Every URL on the command line is forwarded, as it is and in order, where an update is not
/// finished here and another instance runs. Nothing is forwarded otherwise.
pub proof fn given_urls_are_forwarded(
    finish_update: bool,
    urls: Seq<Seq<char>>,
    sole_running_instance: Result<bool, Seq<char>>,
    url_scheme: Seq<char>,
    current_dir: Option<Seq<char>>,
)
    requires
        urls.len() > 0,
    ensures
        !finish_update && sole_running_instance == Ok::<bool, Seq<char>>(false) ==> forwarding_of(
            finish_update,
            urls,
            sole_running_instance,
            url_scheme,
            current_dir,
        ) == ForwardingView::Urls(urls),
        finish_update || sole_running_instance != Ok::<bool, Seq<char>>(false) ==> !(forwarding_of(
            finish_update,
            urls,
            sole_running_instance,
            url_scheme,
            current_dir,
        ) is Urls),
{
}

/// An update comes before everything else, a failure to look for instances is told with its
/// cause, and a sole instance has nobody to forward to, whatever is on the command line.
pub proof fn reasons_for_not_forwarding(
    urls: Seq<Seq<char>>,
    sole_running_instance: Result<bool, Seq<char>>,
    cause: Seq<char>,
    url_scheme: Seq<char>,
    current_dir: Option<Seq<char>>,
)
    ensures
        forwarding_of(true, urls, sole_running_instance, url_scheme, current_dir)
            is IgnoredAfterAutoUpdate,
        forwarding_of(false, urls, Err(cause), url_scheme, current_dir)
            == ForwardingView::WindowsError(cause),
        forwarding_of(false, urls, Ok(true), url_scheme, current_dir) is NoExistingInstance,
{
}

/// Without a URL on the command line one is forwarded that opens a new window, in the directory
/// that is known, or none where the address makes no URL.
pub proof fn a_new_window_opens_in_the_directory(url_scheme: Seq<char>, directory: Seq<char>)
    ensures
        forwarding_of(false, Seq::empty(), Ok(false), url_scheme, Some(directory)) == (
        match read_url(url_scheme + "://action/new_window"@ + "?path="@ + directory) {
            Ok(url) => ForwardingView::Urls(seq![url]),
            Err(error) => ForwardingView::CouldNotCreateUrl(error),
        }),
        forwarding_of(false, Seq::empty(), Ok(false), url_scheme, None) == (match read_url(
            url_scheme + "://action/new_window"@,
        ) {
            Ok(url) => ForwardingView::Urls(seq![url]),
            Err(error) => ForwardingView::CouldNotCreateUrl(error),
        }),
{
    assert(new_window_text(url_scheme, Some(directory)) =~= url_scheme + "://action/new_window"@
        + "?path="@ + directory);
    assert(new_window_text(url_scheme, None) =~= url_scheme + "://action/new_window"@);
}

/// The URLs that are forwarded are seen as they are, one for one.
pub proof fn forwarded_urls_are_seen_whole(urls: Vec<String>, i: int)
    requires
        0 <= i < urls@.len(),
    ensures
        forwarding_view(Ok(urls)) is Urls,
        forwarding_view(Ok(urls))->Urls_0.len() == urls@.len(),
        forwarding_view(Ok(urls))->Urls_0[i] == urls@[i]@,
{
}

} // verus!
