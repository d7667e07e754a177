//! Broadcast error types.
use vstd::prelude::*;
use vstd::string::StringExecFns;

verus! {

/// The decimal digit of a number below ten.
pub open spec fn digit(d: nat) -> char {
    (d + 48) as char
}

/// A number in decimal notation.
pub open spec fn decimal(n: nat) -> Seq<char>
    decreases n,
{
    if n < 10 {
        seq![digit(n)]
    } else {
        decimal(n / 10).push(digit(n % 10))
    }
}

/// The decimal digit of a number below ten.
fn digit_text(d: u64) -> (text: &'static str)
    requires
        d < 10,
    ensures
        text@ == seq![digit(d as nat)],
{
    proof {
        reveal_strlit("0");
        reveal_strlit("1");
        reveal_strlit("2");
        reveal_strlit("3");
        reveal_strlit("4");
        reveal_strlit("5");
        reveal_strlit("6");
        reveal_strlit("7");
        reveal_strlit("8");
        reveal_strlit("9");
    }
    let text = match d {
        0 => "0",
        1 => "1",
        2 => "2",
        3 => "3",
        4 => "4",
        5 => "5",
        6 => "6",
        7 => "7",
        8 => "8",
        _ => "9",
    };
    assert(text@ == seq![digit(d as nat)]);
    text
}

/// A number in decimal notation.
fn decimal_text(n: u64) -> (text: String)
    ensures
        text@ == decimal(n as nat),
    decreases n,
{
    if n < 10 {
        digit_text(n).to_owned()
    } else {
        let mut text = decimal_text(n / 10);
        text.append(digit_text(n % 10));
        assert(text@ == decimal(n as nat));
        text
    }
}

/// What is said of a receiver that has lagged by `n` messages.
fn lagged_text(n: u64) -> (text: String)
    ensures
        text@ == "channel lagged by "@ + decimal(n as nat),
{
    let mut text = "channel lagged by ".to_owned();
    let amount = decimal_text(n);
    text.append(amount.as_str());
    text
}

/// The message was not sent: there are no receivers, or the channel has been
/// closed. It is handed back.
#[derive(Debug)]
pub struct SendError<T>(pub T);

impl<T> SendError<T> {
    /// The error in words.
    pub fn to_string(&self) -> (text: String)
        ensures
            text@ == "channel closed"@,
    {
        "channel closed".to_owned()
    }
}

/// Why a receiver that waits for a message got none.
#[derive(Debug, PartialEq, Eq)]
pub enum RecvError {
    /// There are no more active senders implying no further messages will ever
    /// be sent.
    Closed,
    /// The receiver lagged too far behind. Attempting to receive again will
    /// return the oldest message still retained by the channel.
    ///
    /// Holds the number of skipped messages.
    Lagged(u64),
}

impl Clone for RecvError {
    fn clone(&self) -> (copy: Self)
        ensures
            copy == *self,
    {
        match self {
            RecvError::Closed => RecvError::Closed,
            RecvError::Lagged(n) => RecvError::Lagged(*n),
        }
    }
}

impl RecvError {
    /// The error in words.
    pub fn to_string(&self) -> (text: String)
        ensures
            text@ == match *self {
                RecvError::Closed => "channel closed"@,
                RecvError::Lagged(n) => "channel lagged by "@ + decimal(n as nat),
            },
    {
        match self {
            RecvError::Closed => "channel closed".to_owned(),
            RecvError::Lagged(n) => lagged_text(*n),
        }
    }
}

/// Why a receiver that does not wait got no message.
#[derive(Debug, PartialEq, Eq)]
pub enum TryRecvError {
    /// The channel is currently empty. There are still active senders, so data
    /// may yet become available.
    Empty,
    /// There are no more active senders implying no further messages will ever
    /// be sent.
    Closed,
    /// The receiver lagged too far behind. Attempting to receive again will
    /// return the oldest message still retained by the channel.
    ///
    /// Holds the number of skipped messages.
    Lagged(u64),
}

impl Clone for TryRecvError {
    fn clone(&self) -> (copy: Self)
        ensures
            copy == *self,
    {
        match self {
            TryRecvError::Empty => TryRecvError::Empty,
            TryRecvError::Closed => TryRecvError::Closed,
            TryRecvError::Lagged(n) => TryRecvError::Lagged(*n),
        }
    }
}

impl TryRecvError {
    /// The error in words.
    pub fn to_string(&self) -> (text: String)
        ensures
            text@ == match *self {
                TryRecvError::Empty => "channel empty"@,
                TryRecvError::Closed => "channel closed"@,
                TryRecvError::Lagged(n) => "channel lagged by "@ + decimal(n as nat),
            },
    {
        match self {
            TryRecvError::Empty => "channel empty".to_owned(),
            TryRecvError::Closed => "channel closed".to_owned(),
            TryRecvError::Lagged(n) => lagged_text(*n),
        }
    }
}

/// A number in decimal notation is that of its tenth part, if there is one, followed
/// by the digit that is left over; the digits follow each other from `0` on.
pub proof fn law_decimal(n: nat, d: nat)
    requires
        d < 10,
    ensures
        digit(d) as int == '0' as int + d,
        digit(9) == '9',
        decimal(d).len() == 1,
        decimal(d)[0] == digit(d),
        n > 0 ==> decimal(10 * n + d).len() == decimal(n).len() + 1,
        n > 0 ==> decimal(10 * n + d) == decimal(n).push(digit(d)),
{
    if n > 0 {
        assert((10 * n + d) / 10 == n);
        assert((10 * n + d) % 10 == d);
    }
}

} // verus!
