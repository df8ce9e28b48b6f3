//! The errors that the broker reports, and how each is shown at the boundary.

use vstd::prelude::*;
use vstd::string::StringExecFns;

verus! {

/// The character of one decimal digit.
pub open spec fn digit(d: int) -> char {
    if d == 0 {
        '0'
    } else if d == 1 {
        '1'
    } else if d == 2 {
        '2'
    } else if d == 3 {
        '3'
    } else if d == 4 {
        '4'
    } else if d == 5 {
        '5'
    } else if d == 6 {
        '6'
    } else if d == 7 {
        '7'
    } else if d == 8 {
        '8'
    } else {
        '9'
    }
}

/// The decimal digits of a natural number, without leading zeros.
pub open spec fn digits(n: nat) -> Seq<char>
    decreases n,
{
    if n < 10 {
        seq![digit(n as int)]
    } else {
        digits(n / 10).push(digit((n % 10) as int))
    }
}

/// A number in decimal, with a minus sign before a negative one.
pub open spec fn decimal(n: i64) -> Seq<char> {
    if n < 0 {
        seq!['-'] + digits((-(n as int)) as nat)
    } else {
        digits(n as nat)
    }
}

/// The text of one decimal digit.
fn digit_text(d: u64) -> (text: &'static str)
    requires
        d < 10,
    ensures
        text@ == seq![digit(d as int)],
{
    proof {
        reveal_strlit("0");
        reveal_strlit("1");
        reveal_strlit("2");
        reveal_strlit("3");
        reveal_strlit("4");
        reveal_strlit("5");
        reveal_strlit("6");
        reveal_strlit("7");
        reveal_strlit("8");
        reveal_strlit("9");
    }
    let text = if d == 0 {
        "0"
    } else if d == 1 {
        "1"
    } else if d == 2 {
        "2"
    } else if d == 3 {
        "3"
    } else if d == 4 {
        "4"
    } else if d == 5 {
        "5"
    } else if d == 6 {
        "6"
    } else if d == 7 {
        "7"
    } else if d == 8 {
        "8"
    } else {
        "9"
    };
    assert(text@ =~= seq![digit(d as int)]);
    text
}

/// Writes a natural number in decimal.
fn digits_of(n: u64) -> (text: String)
    ensures
        text@ == digits(n as nat),
    decreases n,
{
    if n < 10 {
        digit_text(n).to_owned()
    } else {
        let front = digits_of(n / 10);
        let text = front.concat(digit_text(n % 10));
        assert(text@ =~= digits((n / 10) as nat).push(digit((n % 10) as int)));
        text
    }
}

/// Writes a number in decimal, with a minus sign before a negative one.
pub fn decimal_of(n: i64) -> (text: String)
    ensures
        text@ == decimal(n),
{
    if n < 0 {
        let magnitude: u64 = (-(n + 1)) as u64 + 1;
        proof {
            reveal_strlit("-");
        }
        let text = "-".to_owned().concat(digits_of(magnitude).as_str());
        assert(text@ =~= seq!['-'] + digits((-(n as int)) as nat));
        text
    } else {
        digits_of(n as u64)
    }
}

/// What can go wrong when a request meets the broker's state.
#[derive(Debug, Clone, Copy, PartialEq, Eq, Structural)]
pub enum ThrottleError {
    /// The named semaphore is not configured.
    UnknownSemaphore,
    /// No peer with the given identifier exists.
    UnknownPeer,
    /// The request asks for more than the semaphore can ever grant.
    ForeverPending { asked: i64, max: i64 },
    /// The request would violate the order in which semaphores may be acquired.
    Deadlock,
    /// A request shape that the recovery path does not support.
    NotImplemented,
}

impl ThrottleError {
    /// The status code that stands for this error at the boundary.
    pub open spec fn spec_status_code(self) -> u16 {
        match self {
            ThrottleError::UnknownPeer => 400,
            ThrottleError::UnknownSemaphore => 400,
            ThrottleError::ForeverPending { .. } => 409,
            ThrottleError::Deadlock => 409,
            ThrottleError::NotImplemented => 501,
        }
    }

    /// Unknown entities are client errors, ordering and capacity violations are
    /// conflicts, unsupported shapes are not implemented.
    pub fn status_code(&self) -> (code: u16)
        ensures
            code == self.spec_status_code(),
            code == 400 || code == 409 || code == 501,
    {
        match self {
            ThrottleError::UnknownPeer => 400,
            ThrottleError::UnknownSemaphore => 400,
            ThrottleError::ForeverPending { .. } => 409,
            ThrottleError::Deadlock => 409,
            ThrottleError::NotImplemented => 501,
        }
    }

    /// The message that describes this error.
    pub fn message(&self) -> (text: String)
        ensures
            text@ == self.spec_message(),
    {
        match self {
            ThrottleError::UnknownSemaphore => "Unknown semaphore".to_owned(),
            ThrottleError::UnknownPeer => "Unknown peer".to_owned(),
            ThrottleError::ForeverPending { asked, max } => {
                let text = "Acquiring lock would block forever. Lock asks for count ".to_owned();
                let text = text.concat(decimal_of(*asked).as_str());
                let text = text.concat(" yet full count is only ");
                let text = text.concat(decimal_of(*max).as_str());
                text.concat(".")
            },
            ThrottleError::Deadlock => "May Deadlock. Due to violation of lock hierarchy.".to_owned(),
            ThrottleError::NotImplemented => "Not Implemented.".to_owned(),
        }
    }

    /// The text of each error's message.
    pub open spec fn spec_message(self) -> Seq<char> {
        match self {
            ThrottleError::UnknownSemaphore => "Unknown semaphore"@,
            ThrottleError::UnknownPeer => "Unknown peer"@,
            ThrottleError::ForeverPending { asked, max } =>
                "Acquiring lock would block forever. Lock asks for count "@ + decimal(asked)
                    + " yet full count is only "@ + decimal(max) + "."@,
            ThrottleError::Deadlock => "May Deadlock. Due to violation of lock hierarchy."@,
            ThrottleError::NotImplemented => "Not Implemented."@,
        }
    }
}

} // verus!
