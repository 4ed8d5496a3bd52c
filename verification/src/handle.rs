use crate::behave::Behave;
use crate::callback::{boxed, may_say_after, BoxedCallback, Callable, Callback};
use crate::channel::{another_sender, feed_same_channel, same_channel};
use crossbeam_channel::{SendError, Sender};
use std::time::Duration;
use vstd::prelude::*;

verus! {

/// The wheel that a handle belonged to is gone.
#[derive(Clone, Copy, Debug)]
pub struct DanglingAddHandle;

/// What a handle sends to its wheel: a callback bound to its context, and
/// the delay after which it runs.
pub struct Submission {
    pub cb: BoxedCallback,
    pub dur: Duration,
}

impl Submission {
    /// The submission that runs `cb` on `ctx` after `dur`: its callback may
    /// say, run after run, what `cb` may say when it runs on `ctx` first and
    /// then on what each run left of it, and its delay is `dur`.
    pub fn new<Ctx, CB>(cb: CB, dur: Duration, ctx: Ctx) -> (submission: Submission) where
        Ctx: Send + 'static,
        CB: Callback<Ctx> + Send + 'static,

        requires
            cb.callable(),
        ensures
            submission.dur == dur,
            forall|said: Seq<Behave>, behave: Behave| #[trigger]
                submission.cb.may_say_after(said, behave) <==> may_say_after(
                    &cb,
                    ctx,
                    said,
                    behave,
                ),
    {
        Submission { cb: boxed(cb, ctx), dur }
    }
}

/// Adds tasks to a wheel from anywhere. What is added reaches the wheel at
/// its next tick.
#[derive(Debug)]
pub struct AddHandle(pub(crate) Sender<Submission>);

impl Clone for AddHandle {
    /// Another handle of the same wheel, and of every handle that this one
    /// shares its wheel with.
    fn clone(&self) -> (other: AddHandle)
        ensures
            self.joins(&other),
            forall|third: AddHandle| #[trigger] third.joins(self) ==> third.joins(&other),
    {
        AddHandle(another_sender(&self.0))
    }
}

/// What a submission came to, given what the channel said of the send: the
/// submission is accepted exactly when the channel took the message, and the
/// handle is dangling exactly when it did not.
pub fn submitted(sent: Result<(), SendError<Submission>>) -> (accepted: Result<
    (),
    DanglingAddHandle,
>)
    ensures
        accepted is Ok <==> sent is Ok,
{
    match sent {
        Ok(_) => Ok(()),
        Err(_) => Err(DanglingAddHandle),
    }
}

impl AddHandle {
    /// The two handles submit to the same wheel.
    pub closed spec fn joins(&self, other: &AddHandle) -> bool {
        same_channel(self.0, other.0)
    }

    /// Whether the two handles submit to the same wheel.
    pub fn same_wheel(&self, other: &AddHandle) -> (same: bool)
        ensures
            same == self.joins(other),
    {
        feed_same_channel(&self.0, &other.0)
    }

    /// The channel of this handle, given `submission` to send, said `sent`.
    pub closed spec fn channel_said(
        &self,
        submission: Submission,
        sent: Result<(), SendError<Submission>>,
    ) -> bool {
        call_ensures(Sender::<Submission>::send, (&self.0, submission), sent)
    }

    /// Submits a callback without context, to run after `dur`: a
    /// submission of this callback and this delay is handed to the channel,
    /// and it is accepted exactly if the channel took it. The channel takes
    /// it for as long as the wheel exists.
    pub fn add<C>(&self, cb: C, dur: Duration) -> (accepted: Result<(), DanglingAddHandle>) where
        C: Callback<()> + Send + 'static,

        requires
            cb.callable(),
        ensures
            exists|submission: Submission, sent: Result<(), SendError<Submission>>|
                submission.dur == dur && (forall|said: Seq<Behave>, behave: Behave| #[trigger]
                    submission.cb.may_say_after(said, behave) <==> may_say_after(
                        &cb,
                        (),
                        said,
                        behave,
                    )) && #[trigger] self.channel_said(submission, sent) && (accepted is Ok
                    <==> sent is Ok),
    {
        let submission = Submission::new(cb, dur, ());
        let ghost handed = submission;
        let sent = self.0.send(submission);
        let ghost came = sent;
        let accepted = submitted(sent);
        assert(self.channel_said(handed, came));
        accepted
    }

    /// Submits a callback that runs on `ctx`, after `dur` and again on the
    /// same context whenever it repeats: a submission of this callback,
    /// this context and this delay is handed to the channel, and it is
    /// accepted exactly if the channel took it. The channel takes it for as
    /// long as the wheel exists.
    pub fn add_with_ctx<C, T>(&self, cb: C, dur: Duration, ctx: T) -> (accepted: Result<
        (),
        DanglingAddHandle,
    >) where C: Callback<(T,)> + Send + 'static, T: Send + 'static
        requires
            cb.callable(),
        ensures
            exists|submission: Submission, sent: Result<(), SendError<Submission>>|
                submission.dur == dur && (forall|said: Seq<Behave>, behave: Behave| #[trigger]
                    submission.cb.may_say_after(said, behave) <==> may_say_after(
                        &cb,
                        (ctx,),
                        said,
                        behave,
                    )) && #[trigger] self.channel_said(submission, sent) && (accepted is Ok
                    <==> sent is Ok),
    {
        let submission = Submission::new(cb, dur, (ctx,));
        let ghost handed = submission;
        let sent = self.0.send(submission);
        let ghost came = sent;
        let accepted = submitted(sent);
        assert(self.channel_said(handed, came));
        accepted
    }
}

} // verus!
