use crate::behave::Behave;
use std::marker::PhantomData;
use vstd::prelude::*;

verus! {

/// When a task body may be run on a context of type `Ctx`.
pub trait Callable<Ctx>: Sized {
    /// The body may be run on every context.
    spec fn callable(&self) -> bool;
}

impl<F, B> Callable<()> for F where F: Fn() -> B {
    open spec fn callable(&self) -> bool {
        call_requires(*self, ())
    }
}

impl<F, B, C> Callable<(C,)> for F where F: Fn(&mut C) -> B {
    open spec fn callable(&self) -> bool {
        forall|context: &mut C| call_requires(*self, (context,))
    }
}

/// A task body that runs on a context of type `Ctx` and says what becomes of
/// its task.
///
/// Two closure shapes implement it: `Fn() -> B` for `Ctx = ()`, and
/// `Fn(&mut C) -> B` for `Ctx = (C,)`, where `B` converts into a [`Behave`].
pub trait Callback<Ctx>: Callable<Ctx> {
    /// Run on `context`, the body may say `behave`.
    spec fn may_say(&self, context: Ctx, behave: Behave) -> bool;

    /// Run on the context `before`, the body may leave it as `after` and
    /// say `behave`.
    spec fn may_leave(&self, before: Ctx, after: Ctx, behave: Behave) -> bool;

    /// Runs the body on the context in its place.
    fn call(&self, context: &mut Ctx) -> (behave: Behave)
        requires
            self.callable(),
        ensures
            self.may_say(*old(context), behave),
    ;

    /// Runs the body on a context of its own and hands the context back as
    /// the run left it.
    fn run(&self, context: Ctx) -> (out: (Ctx, Behave))
        requires
            self.callable(),
        ensures
            self.may_say(context, out.1),
            self.may_leave(context, out.0, out.1),
    ;
}

/// Runs a closure on a context of its own and hands back the context as the
/// closure left it, with the result of the closure.
pub fn run_on<C, B, F: Fn(&mut C) -> B>(f: &F, context: C) -> (out: (C, B))
    requires
        forall|place: &mut C| call_requires(*f, (place,)),
    ensures
        exists|place: &mut C|
            *place == context && *final(place) == out.0 && call_ensures(*f, (place,), out.1),
{
    let mut context = context;
    let result = f(&mut context);
    (context, result)
}

#[allow(unstable_name_collisions)]
impl<F, B> Callback<()> for F where F: Fn() -> B + Send + 'static, B: Into<Behave> {
    /// The outcome is what a result of the closure converts into.
    open spec fn may_say(&self, context: (), behave: Behave) -> bool {
        exists|result: B|
            call_ensures(*self, (), result) && call_ensures(B::into, (result,), behave)
    }

    /// There is nothing that a run could do to no context.
    open spec fn may_leave(&self, before: (), after: (), behave: Behave) -> bool {
        self.may_say(before, behave)
    }

    /// The outcome is what the closure's own result converts into.
    fn call(&self, _context: &mut ()) -> (behave: Behave)
        ensures
            exists|result: B|
                call_ensures(*self, (), result) && call_ensures(B::into, (result,), behave),
    {
        let result = self();
        result.into()
    }

    /// The closure runs; there is no context for it to change.
    fn run(&self, context: ()) -> (out: ((), Behave))
    {
        let result = self();
        (context, result.into())
    }
}

#[allow(unstable_name_collisions)]
impl<F, B, C> Callback<(C,)> for F where
    F: Fn(&mut C) -> B + Send + 'static,
    B: Into<Behave>,
    C: Send + 'static,
 {
    /// The outcome is what a result of the closure on this context converts
    /// into.
    open spec fn may_say(&self, context: (C,), behave: Behave) -> bool {
        exists|inner: &mut C, result: B|
            *inner == context.0 && call_ensures(*self, (inner,), result) && call_ensures(
                B::into,
                (result,),
                behave,
            )
    }

    /// A run of the closure on the context, by [`run_on`], may leave the
    /// context so with a result that converts into the outcome.
    open spec fn may_leave(&self, before: (C,), after: (C,), behave: Behave) -> bool {
        exists|result: B|
            call_ensures(run_on::<C, B, F>, (self, before.0), (after.0, result)) && call_ensures(
                B::into,
                (result,),
                behave,
            )
    }

    /// The closure runs on the context itself: the context is left as the
    /// closure left it, and the outcome is what the closure's own result
    /// converts into.
    fn call(&self, context: &mut (C,)) -> (behave: Behave)
        ensures
            exists|inner: &mut C, result: B|
                *inner == old(context).0 && *final(inner) == final(context).0 && call_ensures(
                    *self,
                    (inner,),
                    result,
                ) && call_ensures(B::into, (result,), behave),
    {
        let result = self(&mut context.0);
        result.into()
    }

    /// The closure runs on the context by [`run_on`], and the context
    /// comes back as the closure left it.
    fn run(&self, context: (C,)) -> (out: ((C,), Behave))
    {
        let (left, result) = run_on(self, context.0);
        ((left,), result.into())
    }
}

/// Run again and again from `context`, each run on the context that the
/// run before it left, the callback may say the outcomes of `said` one after
/// the other and then `behave`.
pub open spec fn may_say_after<Ctx, CB: Callback<Ctx>>(
    callback: &CB,
    context: Ctx,
    said: Seq<Behave>,
    behave: Behave,
) -> bool
    decreases said.len(),
{
    if said.len() == 0 {
        callback.may_say(context, behave)
    } else {
        exists|next: Ctx|
            callback.may_leave(context, next, said[0]) && may_say_after(
                callback,
                next,
                said.skip(1),
                behave,
            )
    }
}

/// A callback together with the context it runs on, with both types erased.
trait Invoke: Send {
    /// As it stands, the callback may say the outcomes of `said` at its next
    /// runs, one after the other, and then `behave`.
    spec fn may_say_after(&self, said: Seq<Behave>, behave: Behave) -> bool;

    /// One run. What the callback may say from here on, it might have said
    /// before the run after the outcome of this run.
    fn invoke(&mut self) -> (behave: Behave)
        ensures
            old(self).may_say_after(Seq::empty(), behave),
            forall|said: Seq<Behave>, later: Behave| #[trigger]
                final(self).may_say_after(said, later) ==> old(self).may_say_after(
                    seq![behave] + said,
                    later,
                ),
    ;
}

/// A callback that may be run on every context. The type invariant keeps
/// this true for as long as the value exists, so running it needs no
/// precondition.
struct Ready<Ctx, CB: Callback<Ctx>> {
    callback: CB,
    context: PhantomData<Ctx>,
}

impl<Ctx, CB: Callback<Ctx>> Ready<Ctx, CB> {
    #[verifier::type_invariant]
    spec fn callable(self) -> bool {
        self.callback.callable()
    }

    closed spec fn may_say(&self, context: Ctx, behave: Behave) -> bool {
        self.callback.may_say(context, behave)
    }

    closed spec fn may_leave(&self, before: Ctx, after: Ctx, behave: Behave) -> bool {
        self.callback.may_leave(before, after, behave)
    }

    closed spec fn may_say_after(&self, context: Ctx, said: Seq<Behave>, behave: Behave) -> bool {
        may_say_after(&self.callback, context, said, behave)
    }

    fn run(&self, context: Ctx) -> (out: (Ctx, Behave))
        ensures
            self.may_say(context, out.1),
            self.may_leave(context, out.0, out.1),
    {
        proof {
            use_type_invariant(self);
        }
        Callback::run(&self.callback, context)
    }
}

/// A callback together with the context that it owns. The context is out
/// of its place only while the callback runs on it; a callback whose run did
/// not come back has none, and says `Cancel` from then on.
struct Bound<Ctx, CB: Callback<Ctx>> {
    callback: Ready<Ctx, CB>,
    context: Option<Ctx>,
}

/// All the outcomes are `Cancel`.
pub open spec fn all_cancel(said: Seq<Behave>) -> bool {
    forall|i: int| 0 <= i < said.len() ==> (#[trigger] said[i]) is Cancel
}

impl<Ctx: Send, CB: Callback<Ctx> + Send> Invoke for Bound<Ctx, CB> {
    closed spec fn may_say_after(&self, said: Seq<Behave>, behave: Behave) -> bool {
        match self.context {
            Some(context) => self.callback.may_say_after(context, said, behave),
            None => all_cancel(said) && behave is Cancel,
        }
    }

    fn invoke(&mut self) -> (behave: Behave)
    {
        let mut taken: Option<Ctx> = None;
        std::mem::swap(&mut taken, &mut self.context);
        match taken {
            Some(context) => {
                let (left, behave) = self.callback.run(context);
                self.context = Some(left);
                proof {
                    assert forall|said: Seq<Behave>, later: Behave| #[trigger]
                        self.may_say_after(said, later) implies old(self).may_say_after(
                        seq![behave] + said,
                        later,
                    ) by {
                        let longer = seq![behave] + said;
                        assert(longer[0] == behave);
                        assert(longer.skip(1) =~= said);
                    }
                }
                behave
            },
            None => {
                proof {
                    assert forall|said: Seq<Behave>, later: Behave| #[trigger]
                        self.may_say_after(said, later) implies old(self).may_say_after(
                        seq![Behave::Cancel] + said,
                        later,
                    ) by {
                        let longer = seq![Behave::Cancel] + said;
                        assert forall|i: int| 0 <= i < longer.len() implies (
                        #[trigger] longer[i]) is Cancel by {
                            if i > 0 {
                                assert(longer[i] == said[i - 1]);
                            }
                        }
                    }
                }
                Behave::Cancel
            },
        }
    }
}

/// The one storage type for every callback, whatever its closure type and
/// context type were.
pub struct BoxedCallback {
    inner: Box<dyn Invoke>,
}

impl BoxedCallback {
    /// As it stands, the callback may say the outcomes of `said` at its next
    /// runs, one after the other, and then `behave`.
    pub closed spec fn may_say_after(&self, said: Seq<Behave>, behave: Behave) -> bool {
        self.inner.may_say_after(said, behave)
    }

    /// As it stands, the callback may say `behave` when it runs.
    pub open spec fn may_say(&self, behave: Behave) -> bool {
        self.may_say_after(Seq::empty(), behave)
    }

    /// Runs the callback on its own context, which keeps what the run did
    /// to it. The outcome is the callback's to choose. It is the same
    /// callback after the run, one run further: whatever it may say from
    /// here on, it might have said before the run after the outcome of this
    /// run.
    pub fn call(&mut self) -> (behave: Behave)
        ensures
            old(self).may_say(behave),
            forall|said: Seq<Behave>, later: Behave| #[trigger]
                final(self).may_say_after(said, later) ==> old(self).may_say_after(
                    seq![behave] + said,
                    later,
                ),
    {
        self.inner.invoke()
    }
}

/// Binds `callback` to `context` and erases both types. This is the only
/// place where a callback meets its context, so the two always agree. What
/// the erased callback may say, run after run, is what `callback` may say
/// when it runs on `context` first and then on what each run left of it, no
/// more and no less.
pub fn boxed<Ctx, CB>(callback: CB, context: Ctx) -> (erased: BoxedCallback) where
    Ctx: Send + 'static,
    CB: Callback<Ctx> + Send + 'static,

    requires
        callback.callable(),
    ensures
        forall|said: Seq<Behave>, behave: Behave| #[trigger]
            erased.may_say_after(said, behave) <==> may_say_after(
                &callback,
                context,
                said,
                behave,
            ),
{
    let ready = Ready { callback, context: PhantomData };
    BoxedCallback { inner: Box::new(Bound { callback: ready, context: Some(context) }) }
}

} // verus!
