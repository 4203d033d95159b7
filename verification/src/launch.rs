//! Which server this launch shows: the bundled sidecar, or one that already
//! runs.
//!
//! Two signals can ask for the latter: the environment variable
//! [`ATTACH_URL_ENV`] and the argument `--attach-url`. The variable wins
//! whenever it holds more than white space, be its value valid or not; an
//! invalid signal never navigates and leaves the launch with the sidecar.
use vstd::prelude::*;
use vstd::slice::slice_subrange;
use vstd::string::StringExecFns;

use crate::text;
use crate::web_url;
use crate::web_url::{Url, UrlView};

verus! {

/// The environment variable that may carry an attach URL.
pub const ATTACH_URL_ENV: &'static str = "DSH_DESKTOP_ATTACH_URL";

/// How this launch reaches a web interface.
#[derive(Debug, Clone, PartialEq, Eq)]
pub enum LaunchMode {
    /// Navigate to a server that already runs.
    Attach { url: Url },
    /// Spawn the bundled host and follow its ready line.
    Sidecar,
}

/// `LaunchMode` as a mathematical value.
pub enum LaunchModeView {
    Attach { url: UrlView },
    Sidecar,
}

impl View for LaunchMode {
    type V = LaunchModeView;

    open spec fn view(&self) -> LaunchModeView {
        match self {
            LaunchMode::Attach { url } => LaunchModeView::Attach { url: url@ },
            LaunchMode::Sidecar => LaunchModeView::Sidecar,
        }
    }
}

/// What the signals of a launch amount to before any URL is parsed.
#[derive(Debug, Clone, PartialEq, Eq)]
pub enum AttachSignal {
    /// Nothing asks to attach.
    Absent,
    /// Something asks to attach and names no URL; the text says why.
    Refused(String),
    /// This text is to be the URL.
    Candidate(String),
}

/// `AttachSignal` as a mathematical value.
pub enum SignalView {
    Absent,
    Refused(Seq<char>),
    Candidate(Seq<char>),
}

impl View for AttachSignal {
    type V = SignalView;

    open spec fn view(&self) -> SignalView {
        match self {
            AttachSignal::Absent => SignalView::Absent,
            AttachSignal::Refused(reason) => SignalView::Refused(reason@),
            AttachSignal::Candidate(candidate) => SignalView::Candidate(candidate@),
        }
    }
}

/// The signal in the value of an attach argument.
pub open spec fn value_signal(value: Seq<char>) -> SignalView {
    if text::trim(value).len() == 0 {
        SignalView::Refused("flag given with an empty value"@)
    } else {
        SignalView::Candidate(text::trim(value))
    }
}

/// The signal in a list of arguments: that of the first attach argument.
pub open spec fn flag_signal(args: Seq<Seq<char>>) -> SignalView
    decreases args.len(),
{
    if args.len() == 0 {
        SignalView::Absent
    } else if text::begins_with(args[0], "--attach-url="@) {
        value_signal(args[0].skip("--attach-url="@.len() as int))
    } else if args[0] == "--attach-url"@ {
        if args.len() == 1 {
            SignalView::Refused("flag given without a value"@)
        } else {
            value_signal(args[1])
        }
    } else {
        flag_signal(args.drop_first())
    }
}

/// The signal in the arguments of a process: the first one is its name.
pub open spec fn argv_signal(argv: Seq<Seq<char>>) -> SignalView {
    if argv.len() == 0 {
        SignalView::Absent
    } else {
        flag_signal(argv.drop_first())
    }
}

/// The signal of a launch: the variable where it holds more than white space,
/// and otherwise the arguments.
pub open spec fn launch_signal(env_value: Option<Seq<char>>, argv: Seq<Seq<char>>) -> SignalView {
    match env_value {
        Some(raw) => if text::trim(raw).len() > 0 {
            SignalView::Candidate(text::trim(raw))
        } else {
            argv_signal(argv)
        },
        None => argv_signal(argv),
    }
}

/// The verdict on a parsed attach URL: it has to be `http` or `https`.
pub open spec fn attach_verdict(parsed: Result<UrlView, Seq<char>>) -> Result<UrlView, Seq<char>> {
    match parsed {
        Ok(url) => if web_url::is_web_scheme(url.scheme) {
            Ok(url)
        } else {
            Err(
                "unsupported scheme "@ + text::debug_text(url.scheme)
                    + ": only http:// and https:// are accepted"@,
            )
        },
        Err(error) => Err("not a valid URL: "@ + error),
    }
}

/// The verdict on a signal, where there is one.
pub open spec fn signal_verdict(signal: SignalView) -> Option<Result<UrlView, Seq<char>>> {
    match signal {
        SignalView::Absent => None,
        SignalView::Refused(reason) => Some(Err(reason)),
        SignalView::Candidate(candidate) => Some(attach_verdict(web_url::parsed_url(candidate))),
    }
}

/// The launch that a verdict leads to.
pub open spec fn verdict_mode(verdict: Option<Result<UrlView, Seq<char>>>) -> LaunchModeView {
    match verdict {
        Some(Ok(url)) => LaunchModeView::Attach { url },
        _ => LaunchModeView::Sidecar,
    }
}

/// The view of an optional verdict.
pub open spec fn verdict_view(v: Option<Result<Url, String>>) -> Option<
    Result<UrlView, Seq<char>>,
> {
    match v {
        Some(r) => Some(web_url::parse_view(r)),
        None => None,
    }
}

/// The view of an optional URL.
pub open spec fn url_view(u: Option<Url>) -> Option<UrlView> {
    match u {
        Some(url) => Some(url@),
        None => None,
    }
}

/// The text of an optional environment value.
pub open spec fn env_text(v: Option<&str>) -> Option<Seq<char>> {
    match v {
        Some(s) => Some(s@),
        None => None,
    }
}

/// Judges the value of an attach argument before it is parsed.
pub fn judge_value(value: &[char]) -> (r: AttachSignal)
    ensures
        r@ == value_signal(value@),
{
    let inner = text::trimmed(value);
    if inner.len() == 0 {
        AttachSignal::Refused("flag given with an empty value".to_string())
    } else {
        AttachSignal::Candidate(text::string_of(inner))
    }
}

/// Looks for the first attach argument; the first entry of `args` is the
/// program's name.
pub fn find_attach_argument(args: &[String]) -> (r: AttachSignal)
    ensures
        r@ == argv_signal(text::texts(args@)),
{
    let ghost all = text::texts(args@);
    let prefix = text::chars_of("--attach-url=");
    let flag = text::chars_of("--attach-url");
    let mut i: usize = 1;
    assert(args.len() > 0 ==> all.drop_first() =~= all.skip(1));
    while i < args.len()
        invariant
            1 <= i,
            all == text::texts(args@),
            prefix@ == "--attach-url="@,
            flag@ == "--attach-url"@,
            args.len() > 0 ==> i <= args.len(),
            args.len() > 0 ==> argv_signal(all) == flag_signal(all.skip(i as int)),
        decreases args.len() - i,
    {
        let ghost rest = all.skip(i as int);
        let arg = text::chars_of(args[i].as_str());
        assert(rest[0] == arg@);
        if text::starts_with(arg.as_slice(), prefix.as_slice()) {
            let value = slice_subrange(arg.as_slice(), prefix.len(), arg.len());
            assert(value@ =~= arg@.skip(prefix@.len() as int));
            return judge_value(value);
        }
        if text::same(arg.as_slice(), flag.as_slice()) {
            if i + 1 < args.len() {
                let value = text::chars_of(args[i + 1].as_str());
                assert(rest[1] == value@);
                return judge_value(value.as_slice());
            }
            return AttachSignal::Refused("flag given without a value".to_string());
        }
        assert(rest.drop_first() =~= all.skip(i + 1));
        i += 1;
    }
    assert(args.len() > 0 ==> all.skip(i as int).len() == 0);
    AttachSignal::Absent
}

/// What the environment value and the arguments of a launch amount to.
pub fn attach_signal(env_value: Option<&str>, args: &[String]) -> (r: AttachSignal)
    ensures
        r@ == launch_signal(env_text(env_value), text::texts(args@)),
{
    if let Some(raw) = env_value {
        let value = text::chars_of(raw);
        let inner = text::trimmed(value.as_slice());
        if inner.len() > 0 {
            return AttachSignal::Candidate(text::string_of(inner));
        }
    }
    find_attach_argument(args)
}

/// Accepts a parsed URL as the one to attach to, or says why not.
pub fn accept_attach_url(parsed: Result<Url, String>) -> (r: Result<Url, String>)
    ensures
        web_url::parse_view(r) == attach_verdict(web_url::parse_view(parsed)),
        r matches Ok(url) ==> parsed == Ok::<Url, String>(url),
{
    match parsed {
        Ok(url) => if url.is_web() {
            Ok(url)
        } else {
            let mut message = "unsupported scheme ".to_string();
            message.append(text::quoted(url.scheme.as_str()).as_str());
            message.append(": only http:// and https:// are accepted");
            Err(message)
        },
        Err(error) => {
            let mut message = "not a valid URL: ".to_string();
            message.append(error.as_str());
            Err(message)
        },
    }
}

/// Validates a candidate attach URL: it has to parse and to be `http` or
/// `https`.
pub fn parse_attach_url(raw: &str) -> (r: Result<Url, String>)
    ensures
        web_url::parse_view(r) == attach_verdict(web_url::parsed_url(raw@)),
        r matches Ok(url) ==> web_url::well_parsed(url@),
{
    accept_attach_url(Url::parse(raw))
}

/// The verdict on a signal, where there is one.
fn judge_signal(signal: AttachSignal) -> (r: Option<Result<Url, String>>)
    ensures
        verdict_view(r) == signal_verdict(signal@),
        r matches Some(Ok(url)) ==> web_url::well_parsed(url@),
{
    match signal {
        AttachSignal::Absent => None,
        AttachSignal::Refused(reason) => Some(Err(reason)),
        AttachSignal::Candidate(candidate) => Some(parse_attach_url(candidate.as_str())),
    }
}

/// The verdict on the first attach argument, where there is one.
pub fn parse_attach_arg(args: &[String]) -> (r: Option<Result<Url, String>>)
    ensures
        verdict_view(r) == signal_verdict(argv_signal(text::texts(args@))),
        r matches Some(Ok(url)) ==> web_url::well_parsed(url@),
{
    judge_signal(find_attach_argument(args))
}

/// The launch that a verdict leads to: attach where it accepts a URL, and the
/// sidecar otherwise.
pub fn mode_for(verdict: Option<Result<Url, String>>) -> (r: LaunchMode)
    ensures
        r@ == verdict_mode(verdict_view(verdict)),
{
    match verdict {
        Some(Ok(url)) => LaunchMode::Attach { url },
        Some(Err(_)) => LaunchMode::Sidecar,
        None => LaunchMode::Sidecar,
    }
}

/// Resolves the launch from the raw value of [`ATTACH_URL_ENV`] and the
/// arguments of the process, its name included.
pub fn resolve_launch_mode(env_value: Option<&str>, args: &[String]) -> (r: LaunchMode)
    ensures
        r@ == verdict_mode(
            signal_verdict(launch_signal(env_text(env_value), text::texts(args@))),
        ),
        r matches LaunchMode::Attach { url } ==> {
            &&& web_url::is_web_scheme(url@.scheme)
            &&& web_url::well_parsed(url@)
        },
{
    mode_for(judge_signal(attach_signal(env_value, args)))
}

/// The URL that a second instance asks the running one to show: that of its
/// first attach argument, if it is valid. The environment has no say.
pub fn resolve_relaunch_attach(args: &[String]) -> (r: Option<Url>)
    ensures
        url_view(r) == match verdict_mode(signal_verdict(argv_signal(text::texts(args@)))) {
            LaunchModeView::Attach { url } => Some(url),
            LaunchModeView::Sidecar => None,
        },
        r matches Some(url) ==> web_url::is_web_scheme(url@.scheme) && web_url::well_parsed(url@),
{
    match parse_attach_arg(args) {
        Some(Ok(url)) => Some(url),
        Some(Err(_)) => None,
        None => None,
    }
}

/// Why the variable did not attach, as it is logged.
pub open spec fn variable_refusal(
    raw: Seq<char>,
    verdict: Result<UrlView, Seq<char>>,
) -> Option<Seq<char>> {
    match verdict {
        Ok(_) => None,
        Err(error) => Some(
            "[launch] invalid "@ + ATTACH_URL_ENV@ + " value "@ + text::debug_text(raw) + ": "@
                + error + "; falling back to sidecar launch"@,
        ),
    }
}

/// Why the argument did not attach at a launch, as it is logged.
pub open spec fn argument_refusal(verdict: Option<Result<UrlView, Seq<char>>>) -> Option<
    Seq<char>,
> {
    match verdict {
        Some(Err(error)) => Some(
            "[launch] invalid --attach-url argument: "@ + error
                + "; falling back to sidecar launch"@,
        ),
        _ => None,
    }
}

/// Why the argument did not attach at a relaunch, as it is logged.
pub open spec fn forwarded_refusal(verdict: Option<Result<UrlView, Seq<char>>>) -> Option<
    Seq<char>,
> {
    match verdict {
        Some(Err(error)) => Some(
            "[launch] ignoring invalid relaunch --attach-url argument: "@ + error,
        ),
        _ => None,
    }
}

/// Why a launch that something asked to attach does not, as it is logged.
pub open spec fn launch_refusal_text(env_value: Option<Seq<char>>, argv: Seq<Seq<char>>) -> Option<
    Seq<char>,
> {
    if env_value is Some && text::trim(env_value->0).len() > 0 {
        variable_refusal(
            env_value->0,
            attach_verdict(web_url::parsed_url(text::trim(env_value->0))),
        )
    } else {
        argument_refusal(signal_verdict(argv_signal(argv)))
    }
}

/// The line that says why the variable with this raw value did not attach.
pub fn refuse_variable(raw: &str, verdict: Result<Url, String>) -> (r: Option<String>)
    ensures
        text::text_view(r) == variable_refusal(raw@, web_url::parse_view(verdict)),
{
    match verdict {
        Ok(_) => None,
        Err(error) => {
            let mut out = "[launch] invalid ".to_string();
            out.append(ATTACH_URL_ENV);
            out.append(" value ");
            out.append(text::quoted(raw).as_str());
            out.append(": ");
            out.append(error.as_str());
            out.append("; falling back to sidecar launch");
            Some(out)
        },
    }
}

/// The line that says why the argument did not attach at a launch.
pub fn refuse_argument(verdict: Option<Result<Url, String>>) -> (r: Option<String>)
    ensures
        text::text_view(r) == argument_refusal(verdict_view(verdict)),
{
    match verdict {
        Some(Err(error)) => {
            let mut out = "[launch] invalid --attach-url argument: ".to_string();
            out.append(error.as_str());
            out.append("; falling back to sidecar launch");
            Some(out)
        },
        Some(Ok(_)) => None,
        None => None,
    }
}

/// The line that says why the argument did not attach at a relaunch.
pub fn refuse_forwarded(verdict: Option<Result<Url, String>>) -> (r: Option<String>)
    ensures
        text::text_view(r) == forwarded_refusal(verdict_view(verdict)),
{
    match verdict {
        Some(Err(error)) => {
            let mut out = "[launch] ignoring invalid relaunch --attach-url argument: ".to_string();
            out.append(error.as_str());
            Some(out)
        },
        Some(Ok(_)) => None,
        None => None,
    }
}

/// The line that says why a launch with this environment value and these
/// arguments does not attach, though something asked it to.
pub fn launch_refusal(env_value: Option<&str>, args: &[String]) -> (r: Option<String>)
    ensures
        text::text_view(r) == launch_refusal_text(env_text(env_value), text::texts(args@)),
{
    if let Some(raw) = env_value {
        let value = text::chars_of(raw);
        let inner = text::trimmed(value.as_slice());
        if inner.len() > 0 {
            return refuse_variable(raw, parse_attach_url(text::string_of(inner).as_str()));
        }
    }
    refuse_argument(parse_attach_arg(args))
}

/// The line that says why a relaunch with these arguments keeps the running
/// instance where it is, though one of them asked it to attach.
pub fn relaunch_refusal(args: &[String]) -> (r: Option<String>)
    ensures
        text::text_view(r) == forwarded_refusal(
            signal_verdict(argv_signal(text::texts(args@))),
        ),
{
    refuse_forwarded(parse_attach_arg(args))
}

/// What is logged of a variable that is set and holds nothing.
pub open spec fn blank_notice(env_value: Option<Seq<char>>) -> Option<Seq<char>> {
    match env_value {
        Some(raw) => if text::trim(raw).len() == 0 {
            Some("[launch] "@ + ATTACH_URL_ENV@ + " is empty; ignoring it"@)
        } else {
            None
        },
        None => None,
    }
}

/// The line that says that the variable is set and holds nothing.
pub fn blank_variable_notice(env_value: Option<&str>) -> (r: Option<String>)
    ensures
        text::text_view(r) == match env_text(env_value) {
            Some(raw) => if text::trim(raw).len() == 0 {
                Some("[launch] "@ + ATTACH_URL_ENV@ + " is empty; ignoring it"@)
            } else {
                None
            },
            None => None,
        },
        text::text_view(r) == blank_notice(env_text(env_value)),
{
    match env_value {
        Some(raw) => {
            let value = text::chars_of(raw);
            if text::trimmed(value.as_slice()).len() == 0 {
                let mut out = "[launch] ".to_string();
                out.append(ATTACH_URL_ENV);
                out.append(" is empty; ignoring it");
                Some(out)
            } else {
                None
            }
        },
        None => None,
    }
}

// ── laws ───────────────────────────────────────────────────────────────────

/// The variable wins: where it holds more than white space, the arguments have
/// no say, be its value valid or not.
pub proof fn law_the_environment_wins(env: Seq<char>, argv: Seq<Seq<char>>, other: Seq<Seq<char>>)
    requires
        text::trim(env).len() > 0,
    ensures
        launch_signal(Some(env), argv) == launch_signal(Some(env), other),
{
}

/// A blank variable is no signal: the launch is that of a process without it.
pub proof fn law_a_blank_variable_is_no_signal(env: Seq<char>, argv: Seq<Seq<char>>)
    requires
        text::trim(env).len() == 0,
    ensures
        launch_signal(Some(env), argv) == launch_signal(None, argv),
{
}

/// The first attach argument with a value decides: arguments behind it have no
/// say.
pub proof fn law_the_first_flag_decides(args: Seq<Seq<char>>, more: Seq<Seq<char>>)
    requires
        flag_signal(args) != SignalView::Absent,
        flag_signal(args) != SignalView::Refused("flag given without a value"@),
    ensures
        flag_signal(args + more) == flag_signal(args),
    decreases args.len(),
{
    let all = args + more;
    assert(all[0] == args[0]);
    if text::begins_with(args[0], "--attach-url="@) {
    } else if args[0] == "--attach-url"@ {
        assert(all[1] == args[1]);
    } else {
        assert(all.drop_first() =~= args.drop_first() + more);
        law_the_first_flag_decides(args.drop_first(), more);
    }
}

/// No launch navigates to anything but an `http` or `https` URL.
pub proof fn law_only_web_urls_are_attached(env: Option<Seq<char>>, argv: Seq<Seq<char>>)
    ensures
        verdict_mode(signal_verdict(launch_signal(env, argv))) matches LaunchModeView::Attach {
            url,
        } ==> web_url::is_web_scheme(url.scheme),
{
}

/// White space around a value has no say, neither in the variable nor in an
/// argument.
pub proof fn law_surrounding_white_space_is_trimmed(
    before: Seq<char>,
    value: Seq<char>,
    after: Seq<char>,
    argv: Seq<Seq<char>>,
)
    requires
        forall|i: int| 0 <= i < before.len() ==> text::is_white(#[trigger] before[i]),
        forall|i: int| 0 <= i < after.len() ==> text::is_white(#[trigger] after[i]),
    ensures
        launch_signal(Some(before + value + after), argv) == launch_signal(Some(value), argv),
        value_signal(before + value + after) == value_signal(value),
{
    text::lemma_trim_of_padded(before, value, after);
}

/// A relaunch reads the arguments as a launch without the variable does.
pub proof fn law_a_relaunch_reads_only_the_arguments(argv: Seq<Seq<char>>)
    ensures
        argv_signal(argv) == launch_signal(None, argv),
{
}

/// A launch that something asked to attach says why it does not: there is a
/// reason exactly where there is a signal and the sidecar is launched all the
/// same.
pub proof fn law_a_refused_attach_is_explained(env: Option<Seq<char>>, argv: Seq<Seq<char>>)
    ensures
        launch_refusal_text(env, argv) is Some <==> {
            &&& launch_signal(env, argv) != SignalView::Absent
            &&& verdict_mode(signal_verdict(launch_signal(env, argv))) is Sidecar
        },
{
}

/// An argument that is neither `--attach-url` nor begins with `--attach-url=` has
/// no say, whatever else it is: the signal is that of the arguments behind it.
/// Where there are none left, there is no signal.
pub proof fn law_other_arguments_have_no_say(other: Seq<char>, args: Seq<Seq<char>>)
    requires
        other != "--attach-url"@,
        other.len() < 13 || other.take(13) != "--attach-url="@,
    ensures
        flag_signal(seq![other] + args) == flag_signal(args),
        flag_signal(Seq::<Seq<char>>::empty()) == SignalView::Absent,
{
    reveal_strlit("--attach-url=");
    let all = seq![other] + args;
    assert(all[0] == other);
    assert(all.drop_first() =~= args);
    if text::begins_with(other, "--attach-url="@) {
        assert(other.take(13) =~= other.subrange(0, 13));
    }
}

/// The value of an attach argument, behind `=` or in the argument behind it, is
/// taken without the white space around it: as the URL, or, where nothing is
/// left, as a mistake. What follows has no say.
pub proof fn law_attach_arguments_carry_their_value(
    before: Seq<char>,
    value: Seq<char>,
    after: Seq<char>,
    more: Seq<Seq<char>>,
)
    requires
        forall|i: int| 0 <= i < before.len() ==> text::is_white(#[trigger] before[i]),
        forall|i: int| 0 <= i < after.len() ==> text::is_white(#[trigger] after[i]),
        value.len() > 0 ==> !text::is_white(value[0]) && !text::is_white(value.last()),
    ensures
        ({
            let given = before + value + after;
            let signal = if value.len() > 0 {
                SignalView::Candidate(value)
            } else {
                SignalView::Refused("flag given with an empty value"@)
            };
            &&& flag_signal(seq!["--attach-url"@, given] + more) == signal
            &&& flag_signal(seq!["--attach-url="@ + given] + more) == signal
        }),
        flag_signal(seq!["--attach-url"@]) == SignalView::Refused("flag given without a value"@),
{
    reveal_strlit("--attach-url=");
    reveal_strlit("--attach-url");
    let given = before + value + after;
    text::law_trimming(before, value, after);
    let apart = seq!["--attach-url"@, given] + more;
    assert(apart[0] == "--attach-url"@ && apart[1] == given);
    let one = "--attach-url="@ + given;
    let together = seq![one] + more;
    assert(together[0] == one);
    assert(one.subrange(0, 13) =~= "--attach-url="@);
    assert(one.skip(13) =~= given);
    assert(seq!["--attach-url"@][0] == "--attach-url"@);
}

/// The first entry of a process's arguments is its name and has no say.
pub proof fn law_the_name_of_the_program_has_no_say(name: Seq<char>, args: Seq<Seq<char>>)
    ensures
        argv_signal(seq![name] + args) == flag_signal(args),
        argv_signal(Seq::<Seq<char>>::empty()) == SignalView::Absent,
{
    assert((seq![name] + args).drop_first() =~= args);
}

/// A variable that holds more than white space is the signal, without the white
/// space around it; a blank one, or none, leaves the signal to the arguments.
/// A blank one is remarked upon.
pub proof fn law_the_variable_comes_first(
    before: Seq<char>,
    value: Seq<char>,
    after: Seq<char>,
    argv: Seq<Seq<char>>,
)
    requires
        forall|i: int| 0 <= i < before.len() ==> text::is_white(#[trigger] before[i]),
        forall|i: int| 0 <= i < after.len() ==> text::is_white(#[trigger] after[i]),
        value.len() > 0 ==> !text::is_white(value[0]) && !text::is_white(value.last()),
    ensures
        value.len() > 0 ==> launch_signal(Some(before + value + after), argv)
            == SignalView::Candidate(value),
        value.len() > 0 ==> blank_notice(Some(before + value + after)) is None,
        launch_signal(Some(before + after), argv) == argv_signal(argv),
        blank_notice(Some(before + after)) == Some(
            "[launch] DSH_DESKTOP_ATTACH_URL is empty; ignoring it"@,
        ),
        launch_signal(None, argv) == argv_signal(argv),
        blank_notice(None) is None,
{
    text::law_trimming(before, value, after);
    let none = Seq::<char>::empty();
    text::law_trimming(before, none, after);
    assert(before + after =~= before + none + after);
    reveal_strlit("[launch] ");
    reveal_strlit("DSH_DESKTOP_ATTACH_URL");
    reveal_strlit(" is empty; ignoring it");
    reveal_strlit("[launch] DSH_DESKTOP_ATTACH_URL is empty; ignoring it");
    assert("[launch] "@ + ATTACH_URL_ENV@ + " is empty; ignoring it"@
        =~= "[launch] DSH_DESKTOP_ATTACH_URL is empty; ignoring it"@);
}

/// A candidate is attached to exactly if it parses as an `http` or `https` URL,
/// and then to the URL that it parses to. Any other is refused with its reason,
/// and so is a signal without a candidate; without a signal there is nothing to
/// judge.
pub proof fn law_every_web_url_is_attached(candidate: Seq<char>, reason: Seq<char>)
    ensures
        web_url::parsed_url(candidate) matches Ok(url) ==> {
            let verdict = signal_verdict(SignalView::Candidate(candidate));
            &&& url.scheme == "http"@ || url.scheme == "https"@ ==> verdict == Some(
                Ok::<UrlView, Seq<char>>(url),
            ) && verdict_mode(verdict) == (LaunchModeView::Attach { url })
            &&& url.scheme != "http"@ && url.scheme != "https"@ ==> verdict == Some(
                Err::<UrlView, Seq<char>>(
                    "unsupported scheme "@ + text::debug_text(url.scheme)
                        + ": only http:// and https:// are accepted"@,
                ),
            ) && verdict_mode(verdict) is Sidecar
        },
        web_url::parsed_url(candidate) matches Err(error) ==> {
            let verdict = signal_verdict(SignalView::Candidate(candidate));
            &&& verdict == Some(Err::<UrlView, Seq<char>>("not a valid URL: "@ + error))
            &&& verdict_mode(verdict) is Sidecar
        },
        signal_verdict(SignalView::Refused(reason)) == Some(Err::<UrlView, Seq<char>>(reason)),
        verdict_mode(signal_verdict(SignalView::Refused(reason))) is Sidecar,
        signal_verdict(SignalView::Absent) is None,
        verdict_mode(signal_verdict(SignalView::Absent)) is Sidecar,
{
}

/// What is logged of a refused signal names where it came from and why it was
/// refused; of an accepted one nothing is.
pub proof fn law_refusals_say_their_reason(
    raw: Seq<char>,
    argv: Seq<Seq<char>>,
    url: UrlView,
    error: Seq<char>,
)
    ensures
        variable_refusal(raw, Ok(url)) is None,
        variable_refusal(raw, Err(error)) == Some(
            "[launch] invalid DSH_DESKTOP_ATTACH_URL value "@ + text::debug_text(raw) + ": "@ + error
                + "; falling back to sidecar launch"@,
        ),
        argument_refusal(Some(Ok(url))) is None,
        argument_refusal(None) is None,
        argument_refusal(Some(Err(error))) == Some(
            "[launch] invalid --attach-url argument: "@ + error
                + "; falling back to sidecar launch"@,
        ),
        forwarded_refusal(Some(Ok(url))) is None,
        forwarded_refusal(None) is None,
        forwarded_refusal(Some(Err(error))) == Some(
            "[launch] ignoring invalid relaunch --attach-url argument: "@ + error,
        ),
        launch_refusal_text(None, argv) == argument_refusal(signal_verdict(argv_signal(argv))),
        text::trim(raw).len() > 0 ==> launch_refusal_text(Some(raw), argv) == variable_refusal(
            raw,
            signal_verdict(launch_signal(Some(raw), argv))->0,
        ),
        text::trim(raw).len() == 0 ==> launch_refusal_text(Some(raw), argv) == launch_refusal_text(
            None,
            argv,
        ),
{
    reveal_strlit("[launch] invalid ");
    reveal_strlit("DSH_DESKTOP_ATTACH_URL");
    reveal_strlit(" value ");
    reveal_strlit("[launch] invalid DSH_DESKTOP_ATTACH_URL value ");
    assert("[launch] invalid "@ + ATTACH_URL_ENV@ + " value "@
        =~= "[launch] invalid DSH_DESKTOP_ATTACH_URL value "@);
}

} // verus!
