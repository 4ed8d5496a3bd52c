//! The submission channel. It is a channel of `crossbeam_channel`, whose
//! code Verus does not read: what this file states of it is believed, not
//! proved.

use crate::handle::Submission;
use crossbeam_channel::{Receiver, SendError, Sender, TryRecvError};
use vstd::prelude::*;

verus! {

/// `crossbeam_channel::Sender`, the sending side of a channel. Opaque.
#[verifier::external_type_specification]
#[verifier::external_body]
#[verifier::reject_recursive_types(T)]
pub struct ExSender<T>(Sender<T>);

/// `crossbeam_channel::Receiver`, the receiving side of a channel. Opaque.
#[verifier::external_type_specification]
#[verifier::external_body]
#[verifier::reject_recursive_types(T)]
pub struct ExReceiver<T>(Receiver<T>);

/// `crossbeam_channel::SendError`, which hands back a message that could
/// not be sent. Opaque.
#[verifier::external_type_specification]
#[verifier::external_body]
#[verifier::reject_recursive_types(T)]
pub struct ExSendError<T>(SendError<T>);

/// `crossbeam_channel::TryRecvError`: the channel was empty, or empty and
/// without senders. Opaque.
#[verifier::external_type_specification]
#[verifier::external_body]
pub struct ExTryRecvError(TryRecvError);

/// `crossbeam_channel::unbounded`: a new channel that holds any number of
/// messages, and its two sides. Nothing is claimed of them.
pub assume_specification<T>[ crossbeam_channel::unbounded::<T> ]() -> (sides: (
    Sender<T>,
    Receiver<T>,
));

/// `Sender::send`: on a channel without bound it does not wait. Whether the
/// message is taken depends on whether a receiver is left, which only the
/// running program decides, so nothing is claimed of the result.
pub assume_specification<T>[ Sender::<T>::send ](sender: &Sender<T>, msg: T) -> (sent: Result<
    (),
    SendError<T>,
>);

/// `Receiver::len`: the number of messages in the channel at some moment
/// of the call. Other threads may send meanwhile, so nothing is claimed of
/// the number.
pub assume_specification<T>[ Receiver::<T>::len ](receiver: &Receiver<T>) -> (messages: usize);

/// `Receiver::try_recv`: takes the next message if one is there, without
/// waiting. What is there depends on the senders, so nothing is claimed of
/// the result.
pub assume_specification<T>[ Receiver::<T>::try_recv ](receiver: &Receiver<T>) -> (received:
    Result<T, TryRecvError>);

/// Whether two senders send into the same channel: what
/// `Sender::same_channel` returns of them.
pub uninterp spec fn same_channel(one: Sender<Submission>, other: Sender<Submission>) -> bool;

/// `Sender::same_channel`: whether the two senders belong to the same
/// channel. Nothing is proved of it; the contract only gives the answer its
/// name.
#[verifier::external_body]
pub(crate) fn feed_same_channel(one: &Sender<Submission>, other: &Sender<Submission>) -> (same:
    bool)
    ensures
        same == same_channel(*one, *other),
{
    one.same_channel(other)
}

/// `Clone` of `Sender`: another sender of the channel that `sender` belongs
/// to, as crossbeam's example for `same_channel` shows. Belonging to the
/// same channel is having the same counter behind the sender, which the
/// clone takes over from `sender`: so whatever sender shares the channel of
/// `sender` shares it with the clone too. Believed, not proved.
#[verifier::external_body]
pub(crate) fn another_sender(sender: &Sender<Submission>) -> (other: Sender<Submission>)
    ensures
        same_channel(*sender, other),
        forall|third: Sender<Submission>| #[trigger]
            same_channel(third, *sender) ==> same_channel(third, other),
{
    sender.clone()
}

} // verus!
