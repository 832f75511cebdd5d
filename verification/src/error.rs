//! Error types.

use vstd::prelude::*;
use vstd::string::*;

use crate::feed::L2MessageKind;
use crate::text;
use crate::tx::TxError;

verus! {

/// Everything that can go wrong reaching the feed.
///
/// Once a client is running, connection failures are not returned to the
/// caller: the supervisor retries them in the background. These are the
/// failures that stop a client from starting at all.
#[derive(Debug, Clone, PartialEq, Eq)]
pub enum Error {
    /// The configuration could not be used to build a client.
    Config(String),
    /// The feed URL was not a `wss://` URL with a host.
    Url(String),
    /// Resolving the feed hostname failed.
    Dns {
        /// Hostname that failed to resolve.
        host: String,
        /// What the resolver said.
        source: String,
    },
    /// The relay answered the upgrade with an HTTP status instead of
    /// accepting it.
    ///
    /// Distinct from [`Error::Connect`] because the relay is reachable and
    /// has refused this particular connection — commonly 429, when more were
    /// opened than the endpoint allows. The supervisor treats it as a lasting
    /// condition rather than a blip and waits its full backoff ceiling before
    /// trying again.
    Rejected {
        /// URL that refused.
        url: String,
        /// Status it answered with.
        status: u16,
    },
    /// TCP, TLS or the websocket upgrade failed.
    Connect {
        /// URL that was being dialled.
        url: String,
        /// Human-readable cause.
        message: String,
    },
}

/// An error with its texts as characters.
pub enum ErrorView {
    Config(Seq<char>),
    Url(Seq<char>),
    Dns { host: Seq<char>, source: Seq<char> },
    Rejected { url: Seq<char>, status: u16 },
    Connect { url: Seq<char>, message: Seq<char> },
}

impl View for Error {
    type V = ErrorView;

    open spec fn view(&self) -> ErrorView {
        match self {
            Self::Config(reason) => ErrorView::Config(reason@),
            Self::Url(url) => ErrorView::Url(url@),
            Self::Dns { host, source } => ErrorView::Dns { host: host@, source: source@ },
            Self::Rejected { url, status } => ErrorView::Rejected { url: url@, status: *status },
            Self::Connect { url, message } => ErrorView::Connect {
                url: url@,
                message: message@,
            },
        }
    }
}

impl ErrorView {
    /// What went wrong, in words.
    pub open spec fn text(self) -> Seq<char> {
        match self {
            Self::Config(reason) => "invalid configuration: "@ + reason,
            Self::Url(url) => "invalid feed URL `"@ + url + "`"@,
            Self::Dns { host, source } => "DNS resolution for `"@ + host + "` failed: "@ + source,
            Self::Rejected { url, status } => "the relay at "@ + url
                + " refused the upgrade with HTTP "@ + text::digits(status as nat, 10),
            Self::Connect { url, message } => "could not open the feed at "@ + url + ": "@
                + message,
        }
    }
}

/// What came of something that can only fail, as a value.
pub open spec fn outcome(out: Result<(), Error>) -> Result<(), ErrorView> {
    match out {
        Ok(()) => Ok(()),
        Err(e) => Err(e@),
    }
}

impl Error {
    /// What went wrong, in words.
    #[must_use]
    pub fn to_string(&self) -> (out: String)
        ensures
            out@ == self@.text(),
    {
        let mut out = String::new();
        match self {
            Self::Config(reason) => {
                out.append("invalid configuration: ");
                out.append(reason.as_str());
            },
            Self::Url(url) => {
                out.append("invalid feed URL `");
                out.append(url.as_str());
                out.append("`");
            },
            Self::Dns { host, source } => {
                out.append("DNS resolution for `");
                out.append(host.as_str());
                out.append("` failed: ");
                out.append(source.as_str());
            },
            Self::Rejected { url, status } => {
                out.append("the relay at ");
                out.append(url.as_str());
                out.append(" refused the upgrade with HTTP ");
                text::push_decimal(&mut out, *status as u64);
            },
            Self::Connect { url, message } => {
                out.append("could not open the feed at ");
                out.append(url.as_str());
                out.append(": ");
                out.append(message.as_str());
            },
        }
        assert(out@ =~= self@.text());
        out
    }
}

/// Why a broadcast message could not be turned into transactions.
///
/// A message that fails to parse is still delivered: the raw payload is on
/// [`FeedMessage::l2_msg`](crate::FeedMessage::l2_msg) and whatever decoded,
/// behind a bad batch entry as well as before it, is in
/// [`FeedMessage::transactions`](crate::FeedMessage::transactions).
#[derive(Debug, Clone, PartialEq, Eq)]
pub enum ParseError {
    /// The frame was not a well-formed broadcast envelope.
    Json(String),
    /// `l2Msg` was not valid base64.
    Base64,
    /// An L2 message had no kind byte.
    Empty,
    /// A batch entry claimed a length that runs past the end of the payload.
    TruncatedBatch,
    /// Batches were nested deeper than the format permits.
    NestingTooDeep,
    /// A sub-message kind this crate does not decode.
    UnhandledKind(L2MessageKind),
    /// A signed transaction did not decode.
    Tx(TxError),
}

impl From<TxError> for ParseError {
    fn from(e: TxError) -> Self {
        ParseError::Tx(e)
    }
}

impl vstd::std_specs::convert::FromSpecImpl<TxError> for ParseError {
    open spec fn obeys_from_spec() -> bool {
        true
    }

    open spec fn from_spec(e: TxError) -> Self {
        ParseError::Tx(e)
    }
}

impl ParseError {
    /// What went wrong, in words.
    pub open spec fn text(self) -> Seq<char> {
        match self {
            Self::Json(reason) => "malformed broadcast JSON: "@ + reason@,
            Self::Base64 => "l2Msg is not valid base64"@,
            Self::Empty => "empty L2 message"@,
            Self::TruncatedBatch => "batch entry is truncated"@,
            Self::NestingTooDeep => "batch nesting is too deep"@,
            Self::UnhandledKind(kind) => "unhandled L2 message kind: "@ + kind.text(),
            Self::Tx(e) => "transaction did not decode: "@ + e.text(),
        }
    }

    /// What went wrong, in words.
    #[must_use]
    pub fn to_string(&self) -> (out: String)
        ensures
            out@ == self.text(),
    {
        let mut out = String::new();
        match self {
            Self::Json(reason) => {
                out.append("malformed broadcast JSON: ");
                out.append(reason.as_str());
            },
            Self::Base64 => {
                out.append("l2Msg is not valid base64");
            },
            Self::Empty => {
                out.append("empty L2 message");
            },
            Self::TruncatedBatch => {
                out.append("batch entry is truncated");
            },
            Self::NestingTooDeep => {
                out.append("batch nesting is too deep");
            },
            Self::UnhandledKind(kind) => {
                out.append("unhandled L2 message kind: ");
                out.append(kind.to_string().as_str());
            },
            Self::Tx(e) => {
                out.append("transaction did not decode: ");
                out.append(e.to_string().as_str());
            },
        }
        assert(out@ =~= self.text());
        out
    }
}

/// What went wrong is said in one form for each sort of error, with what is
/// known filled in whole: the reason, the URL, the host and the resolver's
/// words, the status in decimal.
pub proof fn errors_are_said_in_one_form(e: &Error, said: String, f: &Error, also: String)
    requires
        call_ensures(Error::to_string, (e,), said),
        call_ensures(Error::to_string, (f,), also),
    ensures
        match (*e, *f) {
            (Error::Config(a), Error::Config(b)) => text::same_form(
                said@,
                a@,
                Seq::empty(),
                also@,
                b@,
                Seq::empty(),
            ),
            (Error::Url(a), Error::Url(b)) => text::same_form(
                said@,
                a@,
                Seq::empty(),
                also@,
                b@,
                Seq::empty(),
            ),
            (
                Error::Dns { host: a, source: x },
                Error::Dns { host: b, source: y },
            ) => text::same_form(said@, a@, x@, also@, b@, y@),
            (
                Error::Rejected { url: a, status: x },
                Error::Rejected { url: b, status: y },
            ) => text::same_form(
                said@,
                a@,
                text::digits(x as nat, 10),
                also@,
                b@,
                text::digits(y as nat, 10),
            ),
            (
                Error::Connect { url: a, message: x },
                Error::Connect { url: b, message: y },
            ) => text::same_form(said@, a@, x@, also@, b@, y@),
            _ => true,
        },
{
    let none = Seq::<char>::empty();
    match (*e, *f) {
        (Error::Config(a), Error::Config(b)) => {
            let front = "invalid configuration: "@;
            text::lemma_same_form(front, none, none, a@, none, b@, none);
            assert(said@ =~= front + a@ + none + none + none);
            assert(also@ =~= front + b@ + none + none + none);
        },
        (Error::Url(a), Error::Url(b)) => {
            let front = "invalid feed URL `"@;
            text::lemma_same_form(front, none, "`"@, a@, none, b@, none);
            assert(said@ =~= front + a@ + none + none + "`"@);
            assert(also@ =~= front + b@ + none + none + "`"@);
        },
        (Error::Dns { host: a, source: x }, Error::Dns { host: b, source: y }) => {
            let front = "DNS resolution for `"@;
            let middle = "` failed: "@;
            text::lemma_same_form(front, middle, none, a@, x@, b@, y@);
            assert(said@ =~= front + a@ + middle + x@ + none);
            assert(also@ =~= front + b@ + middle + y@ + none);
        },
        (Error::Rejected { url: a, status: x }, Error::Rejected { url: b, status: y }) => {
            let front = "the relay at "@;
            let middle = " refused the upgrade with HTTP "@;
            let v = text::digits(x as nat, 10);
            let w = text::digits(y as nat, 10);
            text::lemma_same_form(front, middle, none, a@, v, b@, w);
            assert(said@ =~= front + a@ + middle + v + none);
            assert(also@ =~= front + b@ + middle + w + none);
        },
        (Error::Connect { url: a, message: x }, Error::Connect { url: b, message: y }) => {
            let front = "could not open the feed at "@;
            let middle = ": "@;
            text::lemma_same_form(front, middle, none, a@, x@, b@, y@);
            assert(said@ =~= front + a@ + middle + x@ + none);
            assert(also@ =~= front + b@ + middle + y@ + none);
        },
        _ => {},
    }
}

/// A failure to parse says what it comes from in that thing's own words, in one
/// form for each sort.
pub proof fn parse_errors_are_said_in_one_form(
    e: &ParseError,
    said: String,
    f: &ParseError,
    also: String,
    cause: String,
    other_cause: String,
)
    requires
        call_ensures(ParseError::to_string, (e,), said),
        call_ensures(ParseError::to_string, (f,), also),
        *e matches ParseError::UnhandledKind(kind) ==> call_ensures(
            L2MessageKind::to_string,
            (&kind,),
            cause,
        ),
        *f matches ParseError::UnhandledKind(kind) ==> call_ensures(
            L2MessageKind::to_string,
            (&kind,),
            other_cause,
        ),
        *e matches ParseError::Tx(tx) ==> call_ensures(TxError::to_string, (&tx,), cause),
        *f matches ParseError::Tx(tx) ==> call_ensures(TxError::to_string, (&tx,), other_cause),
        *e matches ParseError::Json(reason) ==> cause@ == reason@,
        *f matches ParseError::Json(reason) ==> other_cause@ == reason@,
    ensures
        ({
            let alike = text::same_form(
                said@,
                cause@,
                Seq::empty(),
                also@,
                other_cause@,
                Seq::empty(),
            );
            &&& e is Json && f is Json ==> alike
            &&& e is UnhandledKind && f is UnhandledKind ==> alike
            &&& e is Tx && f is Tx ==> alike
        }),
{
    let none = Seq::<char>::empty();
    let front = match *e {
        ParseError::Json(_) => "malformed broadcast JSON: "@,
        ParseError::UnhandledKind(_) => "unhandled L2 message kind: "@,
        _ => "transaction did not decode: "@,
    };
    if (e is Json && f is Json) || (e is UnhandledKind && f is UnhandledKind) || (e is Tx
        && f is Tx) {
        text::lemma_same_form(front, none, none, cause@, none, other_cause@, none);
        assert(said@ =~= front + cause@ + none + none + none);
        assert(also@ =~= front + other_cause@ + none + none + none);
    }
}

/// An error is looked at as it is: what sort it is of, and what it holds.
pub proof fn errors_are_looked_at_as_they_are(e: Error)
    ensures
        match (e, e@) {
            (Error::Config(reason), ErrorView::Config(seen)) => seen == reason@,
            (Error::Url(url), ErrorView::Url(seen)) => seen == url@,
            (Error::Dns { host, source }, ErrorView::Dns { host: seen, source: said }) => seen
                == host@ && said == source@,
            (
                Error::Rejected { url, status },
                ErrorView::Rejected { url: seen, status: answered },
            ) => seen == url@ && answered == status,
            (
                Error::Connect { url, message },
                ErrorView::Connect { url: seen, message: said },
            ) => seen == url@ && said == message@,
            _ => false,
        },
{
}

} // verus!
