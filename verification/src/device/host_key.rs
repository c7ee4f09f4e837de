//! Trust on first use: the tablet's host key is pinned when it is first seen, and a tablet that
//! shows another key later is refused.

use vstd::prelude::*;

use crate::device::DeviceError;
use crate::device::DeviceErrorView;
use crate::text;

verus! {

/// What came of comparing the key that the tablet shows with the one that is pinned.
#[derive(Debug)]
pub enum HostKeyOutcome {
    /// No key has been shown yet.
    Pending,
    /// No key is pinned: this one will be, once the login has succeeded.
    PendingRecord { fingerprint: String },
    /// The key is the one that is pinned.
    Matched,
    /// The key is another one.
    Changed { pinned: String, presented: String },
}

/// The model of a [`HostKeyOutcome`].
pub enum HostKeyView {
    Pending,
    PendingRecord { fingerprint: Seq<char> },
    Matched,
    Changed { pinned: Seq<char>, presented: Seq<char> },
}

impl DeepView for HostKeyOutcome {
    type V = HostKeyView;

    open spec fn deep_view(&self) -> HostKeyView {
        match *self {
            HostKeyOutcome::Pending => HostKeyView::Pending,
            HostKeyOutcome::PendingRecord { fingerprint } => HostKeyView::PendingRecord {
                fingerprint: fingerprint@,
            },
            HostKeyOutcome::Matched => HostKeyView::Matched,
            HostKeyOutcome::Changed { pinned, presented } => HostKeyView::Changed {
                pinned: pinned@,
                presented: presented@,
            },
        }
    }
}

impl Default for HostKeyOutcome {
    fn default() -> (o: Self)
        ensures
            o.deep_view() == HostKeyView::Pending,
    {
        HostKeyOutcome::Pending
    }
}

/// The outcome for a pinned key, if there is one, and the key that is shown.
pub open spec fn judged(pinned: Option<Seq<char>>, presented: Seq<char>) -> HostKeyView {
    match pinned {
        Some(p) => if p == presented {
            HostKeyView::Matched
        } else {
            HostKeyView::Changed { pinned: p, presented }
        },
        None => HostKeyView::PendingRecord { fingerprint: presented },
    }
}

/// Whether the handshake may go on.
pub open spec fn accepted(o: HostKeyView) -> bool {
    !(o is Changed)
}

/// The fingerprint to pin once the login has succeeded.
pub open spec fn to_pin(o: HostKeyView) -> Option<Seq<char>> {
    match o {
        HostKeyView::PendingRecord { fingerprint } => Some(fingerprint),
        _ => None,
    }
}

impl HostKeyOutcome {
    /// Compares the key that the tablet shows with the one that is pinned.
    pub fn judge(pinned: Option<&str>, presented: &str) -> (o: Self)
        ensures
            o.deep_view() == judged(pinned.deep_view(), presented@),
    {
        match pinned {
            Some(p) => if text::str_eq(p, presented) {
                HostKeyOutcome::Matched
            } else {
                HostKeyOutcome::Changed { pinned: p.to_owned(), presented: presented.to_owned() }
            },
            None => HostKeyOutcome::PendingRecord { fingerprint: presented.to_owned() },
        }
    }

    /// Whether the handshake may go on.
    pub fn accepts(&self) -> (r: bool)
        ensures
            r == accepted(self.deep_view()),
    {
        match self {
            HostKeyOutcome::Changed { pinned: _, presented: _ } => false,
            _ => true,
        }
    }

    /// The fingerprint to pin once the login has succeeded.
    pub fn fingerprint_to_pin(&self) -> (r: Option<&str>)
        ensures
            r.deep_view() == to_pin(self.deep_view()),
    {
        match self {
            HostKeyOutcome::PendingRecord { fingerprint } => Some(fingerprint.as_str()),
            _ => None,
        }
    }

    /// Judges a connection. A changed key is reported as such, whatever else went wrong; failing
    /// that, a connection that could not be made.
    pub fn check_connection(&self, endpoint: &str, failure: Option<&str>) -> (r: Result<
        (),
        DeviceError,
    >)
        ensures
            connection_error(self.deep_view(), endpoint@, failure.deep_view()) == (match r {
                Ok(_) => None,
                Err(e) => Some(e.deep_view()),
            }),
    {
        if let HostKeyOutcome::Changed { pinned, presented } = self {
            return Err(
                DeviceError::HostKeyChanged {
                    endpoint: endpoint.to_owned(),
                    pinned_fingerprint: pinned.clone(),
                    presented_fingerprint: presented.clone(),
                },
            );
        }
        if let Some(reason) = failure {
            let mut m = text::concat3(endpoint, " (", reason);
            m.append(")");
            return Err(DeviceError::Unreachable(m));
        }
        Ok(())
    }
}

/// The error of a connection, if there is one.
pub open spec fn connection_error(
    o: HostKeyView,
    endpoint: Seq<char>,
    failure: Option<Seq<char>>,
) -> Option<DeviceErrorView> {
    match o {
        HostKeyView::Changed { pinned, presented } => Some(
            DeviceErrorView::HostKeyChanged {
                endpoint,
                pinned_fingerprint: pinned,
                presented_fingerprint: presented,
            },
        ),
        _ => match failure {
            Some(reason) => Some(
                DeviceErrorView::Unreachable(endpoint + " ("@ + reason + ")"@),
            ),
            None => None,
        },
    }
}

/// What a failed login means: a login that could not be tried is another error than one that
/// was refused.
pub fn check_login(r: Result<bool, String>) -> (out: Result<(), DeviceError>)
    ensures
        match r {
            Ok(true) => out is Ok,
            Ok(false) => out matches Err(e) && e.deep_view() == DeviceErrorView::AuthFailed,
            Err(m) => out matches Err(e) && e.deep_view() == DeviceErrorView::Other(
                "authenticate_password: "@ + m@,
            ),
        },
{
    match r {
        Ok(success) => if success {
            Ok(())
        } else {
            Err(DeviceError::AuthFailed)
        },
        Err(m) => Err(DeviceError::Other(text::concat2("authenticate_password: ", m.as_str()))),
    }
}

/// The warning that a key could not be pinned.
pub fn pin_warning(reason: &str) -> (s: String)
    ensures
        s@
            == "Couldn't pin the tablet's host key — host-key change detection is OFF until this is fixed. Reason: "@
            + reason@,
{
    text::concat2(
        "Couldn't pin the tablet's host key — host-key change detection is OFF until this is fixed. Reason: ",
        reason,
    )
}

/// A tablet that shows another key than the pinned one is refused, is reported as such, and its
/// key is never pinned.
pub proof fn changed_key_is_refused(
    pinned: Seq<char>,
    presented: Seq<char>,
    endpoint: Seq<char>,
    failure: Option<Seq<char>>,
)
    requires
        pinned != presented,
    ensures
        !accepted(judged(Some(pinned), presented)),
        to_pin(judged(Some(pinned), presented)) is None,
        connection_error(judged(Some(pinned), presented), endpoint, failure) == Some(
            DeviceErrorView::HostKeyChanged {
                endpoint,
                pinned_fingerprint: pinned,
                presented_fingerprint: presented,
            },
        ),
{
}

/// A key that was pinned is accepted when it is shown again, and not pinned anew.
pub proof fn pinned_key_is_accepted(fingerprint: Seq<char>)
    ensures
        accepted(judged(None, fingerprint)),
        to_pin(judged(None, fingerprint)) == Some(fingerprint),
        judged(Some(fingerprint), fingerprint) == HostKeyView::Matched,
        to_pin(judged(Some(fingerprint), fingerprint)) is None,
{
}

/// A connection that could not be made is reported as such, with the reason, unless the key has
/// changed; one that could be made is good exactly if the key has not.
pub proof fn connection_is_judged(o: HostKeyView, endpoint: Seq<char>, failure: Option<Seq<char>>)
    ensures
        !(o is Changed) ==> (failure matches Some(reason) ==> connection_error(
            o,
            endpoint,
            failure,
        ) == Some(DeviceErrorView::Unreachable(endpoint + " ("@ + reason + ")"@))),
        connection_error(o, endpoint, None) is None <==> !(o is Changed),
        accepted(o) <==> !(o is Changed),
{
}

} // verus!
