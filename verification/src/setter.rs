//! A wrapper for any kind of settable reactive cell: a plain write handle,
//! or a mapped setter that derives the written value from its argument.
//!
//! The two shapes form a closed pair of variants dispatched by matching, so
//! a caller can accept "anything settable" without open-ended dispatch.  A
//! mapped setter carries its derivation as a closed expression over
//! [`crate::expr::Expr::Input`]; a pure derivation gives the write an exact
//! contract.

use vstd::prelude::*;

use crate::expr::{pure_expr, pure_val, refs_below, Expr};
use crate::runtime::{write_outcome, ReactiveError, Runtime, WriteSignal};

verus! {

/// What a [`SignalSetter`] does with the value it is handed.
enum SetterKind {
    /// Forward it unchanged into the signal.
    Direct(WriteSignal),
    /// Evaluate the expression with the value bound to `Input`, and write
    /// the result into the signal.
    Mapped(WriteSignal, Expr),
}

impl Clone for SetterKind {
    /// Structural copy.
    fn clone(&self) -> (r: Self)
        ensures
            r == *self,
    {
        match self {
            SetterKind::Direct(w) => SetterKind::Direct(*w),
            SetterKind::Mapped(w, e) => SetterKind::Mapped(*w, e.clone()),
        }
    }
}

/// A settable reactive cell: setting it writes a signal, either directly or
/// through a mapping.
pub struct SignalSetter {
    kind: SetterKind,
}

impl Clone for SignalSetter {
    /// The copy behaves identically to the original.
    fn clone(&self) -> (r: Self)
        ensures
            r == *self,
    {
        SignalSetter { kind: self.kind.clone() }
    }
}

impl SignalSetter {
    /// Does this setter forward its argument unchanged?
    pub closed spec fn is_direct(self) -> bool {
        self.kind is Direct
    }

    /// The signal every set call ends in.
    pub closed spec fn target(self) -> WriteSignal {
        match self.kind {
            SetterKind::Direct(w) => w,
            SetterKind::Mapped(w, _) => w,
        }
    }

    /// The derivation applied to the argument: the identity for a direct
    /// setter.
    pub closed spec fn derivation(self) -> Expr {
        match self.kind {
            SetterKind::Direct(_) => Expr::Input,
            SetterKind::Mapped(_, e) => e,
        }
    }

    /// Wraps a value-deriving computation over a signal: `set(v)` writes
    /// `mapped` evaluated with `v` into `target`.
    pub fn map(target: WriteSignal, mapped: Expr) -> (r: SignalSetter)
        ensures
            !r.is_direct(),
            r.target() == target,
            r.derivation() == mapped,
    {
        SignalSetter { kind: SetterKind::Mapped(target, mapped) }
    }

    /// Hands the value to the setter.  A direct setter forwards it into its
    /// signal with the write's complete contract; a mapped setter with a
    /// pure derivation writes the derived value under the same contract,
    /// and a faulting derivation surfaces `ClosurePanic` and writes
    /// nothing.
    pub fn set(&self, rt: &mut Runtime, value: i64) -> (r: Result<(), ReactiveError>)
        requires
            old(rt).wf(),
            old(rt).valid_write(self.target()),
            refs_below(self.derivation(), old(rt).n_nodes()),
        ensures
            final(rt).wf(),
            self.is_direct() ==> write_outcome(
                *old(rt),
                *final(rt),
                self.target().id as int,
                value,
                r,
            ),
            !self.is_direct() && pure_expr(self.derivation()) ==> (match pure_val(
                self.derivation(),
                Option::Some(value),
            ) {
                Option::Some(u) => write_outcome(
                    *old(rt),
                    *final(rt),
                    self.target().id as int,
                    u,
                    r,
                ),
                Option::None => r == Result::<(), ReactiveError>::Err(ReactiveError::ClosurePanic)
                    && *final(rt) == *old(rt),
            }),
    {
        match &self.kind {
            SetterKind::Direct(w) => rt.write(*w, value),
            SetterKind::Mapped(w, e) => {
                match rt.apply_input(e, value) {
                    Result::Ok(v) => rt.write(*w, v),
                    Result::Err(f) => Result::Err(f),
                }
            },
        }
    }
}

impl From<WriteSignal> for SignalSetter {
    /// Wraps a plain write handle; [`lemma_setter_from`] pins the result.
    fn from(value: WriteSignal) -> (r: SignalSetter) {
        SignalSetter { kind: SetterKind::Direct(value) }
    }
}

impl vstd::std_specs::convert::FromSpecImpl<WriteSignal> for SignalSetter {
    open spec fn obeys_from_spec() -> bool {
        true
    }

    closed spec fn from_spec(value: WriteSignal) -> SignalSetter {
        SignalSetter { kind: SetterKind::Direct(value) }
    }
}

/// What the `From` conversion builds: a direct setter over the given handle,
/// whose derivation is the identity (which trivially meets `set`'s
/// expression precondition).
pub proof fn lemma_setter_from(w: WriteSignal)
    ensures
        ({
            let s = <SignalSetter as vstd::std_specs::convert::FromSpec<WriteSignal>>::from_spec(
                w,
            );
            &&& s.is_direct()
            &&& s.target() == w
            &&& s.derivation() == Expr::Input
        }),
{
}

} // verus!
