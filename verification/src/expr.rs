//! The closed expression language in which memo computations, effect bodies
//! and mapped setters are written.
//!
//! A computation over the reactive graph is a tree of [`Expr`] nodes.  Reads
//! name the node they read by its arena index; an expression stored on a node
//! may only read nodes created before that node, which keeps the dependency
//! graph acyclic by construction.

use vstd::prelude::*;

verus! {

/// A computation over the reactive graph.
///
/// Evaluation is total except for the faults that stand in for a panicking
/// user closure: a checked addition that overflows, a remainder with a
/// non-positive divisor or negative dividend, reading a disposed node, and
/// `Input` outside a mapped setter.
#[derive(Debug)]
pub enum Expr {
    /// A constant value.
    Lit(i64),
    /// A tracked read of the signal or memo at the given arena index: while an
    /// observer is active, the read records a dependency edge.
    Read(usize),
    /// An untracked read: returns the same value as `Read` but never records
    /// a dependency edge.
    ReadUntracked(usize),
    /// The value handed to a mapped setter; faults anywhere else.
    Input,
    /// Checked addition; faults on overflow.
    Add(Box<Expr>, Box<Expr>),
    /// Remainder; faults unless the dividend is non-negative and the divisor
    /// positive.
    Rem(Box<Expr>, Box<Expr>),
    /// Evaluates the first operand and picks the second when it is non-zero,
    /// the third otherwise.
    IfNz(Box<Expr>, Box<Expr>, Box<Expr>),
}

impl Clone for Expr {
    /// Structural copy.
    fn clone(&self) -> (r: Self)
        ensures
            r == *self,
        decreases *self,
    {
        match self {
            Expr::Lit(v) => Expr::Lit(*v),
            Expr::Read(d) => Expr::Read(*d),
            Expr::ReadUntracked(d) => Expr::ReadUntracked(*d),
            Expr::Input => Expr::Input,
            Expr::Add(a, b) => Expr::Add(Box::new((**a).clone()), Box::new((**b).clone())),
            Expr::Rem(a, b) => Expr::Rem(Box::new((**a).clone()), Box::new((**b).clone())),
            Expr::IfNz(c, t, f) => Expr::IfNz(
                Box::new((**c).clone()),
                Box::new((**t).clone()),
                Box::new((**f).clone()),
            ),
        }
    }
}

/// Every read in `e` names an arena index below `bound`.
pub open spec fn refs_below(e: Expr, bound: nat) -> bool
    decreases e,
{
    match e {
        Expr::Lit(_) => true,
        Expr::Read(d) => (d as nat) < bound,
        Expr::ReadUntracked(d) => (d as nat) < bound,
        Expr::Input => true,
        Expr::Add(a, b) => refs_below(*a, bound) && refs_below(*b, bound),
        Expr::Rem(a, b) => refs_below(*a, bound) && refs_below(*b, bound),
        Expr::IfNz(c, t, f) => refs_below(*c, bound) && refs_below(*t, bound) && refs_below(
            *f,
            bound,
        ),
    }
}

/// `e` performs no untracked read.  Memo computations are restricted to
/// tracked reads: a memo's cache is only correct if every value it depends on
/// is recorded in its dependency set.
pub open spec fn tracked_only(e: Expr) -> bool
    decreases e,
{
    match e {
        Expr::Lit(_) => true,
        Expr::Read(_) => true,
        Expr::ReadUntracked(_) => false,
        Expr::Input => true,
        Expr::Add(a, b) => tracked_only(*a) && tracked_only(*b),
        Expr::Rem(a, b) => tracked_only(*a) && tracked_only(*b),
        Expr::IfNz(c, t, f) => tracked_only(*c) && tracked_only(*t) && tracked_only(*f),
    }
}

/// `e` never uses `Input`; required of memo and effect computations, which
/// are run without one.
pub open spec fn no_input(e: Expr) -> bool
    decreases e,
{
    match e {
        Expr::Lit(_) => true,
        Expr::Read(_) => true,
        Expr::ReadUntracked(_) => true,
        Expr::Input => false,
        Expr::Add(a, b) => no_input(*a) && no_input(*b),
        Expr::Rem(a, b) => no_input(*a) && no_input(*b),
        Expr::IfNz(c, t, f) => no_input(*c) && no_input(*t) && no_input(*f),
    }
}

/// Runtime check for [`refs_below`], used to validate an expression against
/// the current arena before it is stored on a node.
pub fn check_refs_below(e: &Expr, bound: usize) -> (r: bool)
    ensures
        r == refs_below(*e, bound as nat),
    decreases *e,
{
    match e {
        Expr::Lit(_) => true,
        Expr::Read(d) => *d < bound,
        Expr::ReadUntracked(d) => *d < bound,
        Expr::Input => true,
        Expr::Add(a, b) => check_refs_below(a, bound) && check_refs_below(b, bound),
        Expr::Rem(a, b) => check_refs_below(a, bound) && check_refs_below(b, bound),
        Expr::IfNz(c, t, f) => check_refs_below(c, bound) && check_refs_below(t, bound)
            && check_refs_below(f, bound),
    }
}

/// Runtime check for [`tracked_only`].
pub fn check_tracked_only(e: &Expr) -> (r: bool)
    ensures
        r == tracked_only(*e),
    decreases *e,
{
    match e {
        Expr::Lit(_) => true,
        Expr::Read(_) => true,
        Expr::ReadUntracked(_) => false,
        Expr::Input => true,
        Expr::Add(a, b) => check_tracked_only(a) && check_tracked_only(b),
        Expr::Rem(a, b) => check_tracked_only(a) && check_tracked_only(b),
        Expr::IfNz(c, t, f) => check_tracked_only(c) && check_tracked_only(t)
            && check_tracked_only(f),
    }
}

/// Runtime check for [`no_input`].
pub fn check_no_input(e: &Expr) -> (r: bool)
    ensures
        r == no_input(*e),
    decreases *e,
{
    match e {
        Expr::Lit(_) => true,
        Expr::Read(_) => true,
        Expr::ReadUntracked(_) => true,
        Expr::Input => false,
        Expr::Add(a, b) => check_no_input(a) && check_no_input(b),
        Expr::Rem(a, b) => check_no_input(a) && check_no_input(b),
        Expr::IfNz(c, t, f) => check_no_input(c) && check_no_input(t) && check_no_input(f),
    }
}


/// `e` performs no tracked read at all: evaluating it can never record a
/// dependency edge, whichever branches are taken.
pub open spec fn no_tracked_reads(e: Expr) -> bool
    decreases e,
{
    match e {
        Expr::Lit(_) => true,
        Expr::Read(_) => false,
        Expr::ReadUntracked(_) => true,
        Expr::Input => true,
        Expr::Add(a, b) => no_tracked_reads(*a) && no_tracked_reads(*b),
        Expr::Rem(a, b) => no_tracked_reads(*a) && no_tracked_reads(*b),
        Expr::IfNz(c, t, f) => no_tracked_reads(*c) && no_tracked_reads(*t) && no_tracked_reads(
            *f,
        ),
    }
}

/// `e` reads nothing from the graph: its value is a pure function of the
/// input.
pub open spec fn pure_expr(e: Expr) -> bool
    decreases e,
{
    match e {
        Expr::Lit(_) => true,
        Expr::Read(_) => false,
        Expr::ReadUntracked(_) => false,
        Expr::Input => true,
        Expr::Add(a, b) => pure_expr(*a) && pure_expr(*b),
        Expr::Rem(a, b) => pure_expr(*a) && pure_expr(*b),
        Expr::IfNz(c, t, f) => pure_expr(*c) && pure_expr(*t) && pure_expr(*f),
    }
}

/// The value of a pure expression; `None` where evaluation faults (a missing
/// input, an overflowing addition, a remainder outside its domain) -- and for
/// any expression that is not pure.
pub open spec fn pure_val(e: Expr, input: Option<i64>) -> Option<i64>
    decreases e,
{
    match e {
        Expr::Lit(v) => Option::Some(v),
        Expr::Read(_) => Option::None,
        Expr::ReadUntracked(_) => Option::None,
        Expr::Input => input,
        Expr::Add(a, b) => match (pure_val(*a, input), pure_val(*b, input)) {
            (Option::Some(x), Option::Some(y)) => if i64::MIN <= x + y <= i64::MAX {
                Option::Some((x + y) as i64)
            } else {
                Option::None
            },
            _ => Option::None,
        },
        Expr::Rem(a, b) => match (pure_val(*a, input), pure_val(*b, input)) {
            (Option::Some(x), Option::Some(y)) => if x >= 0 && y > 0 {
                Option::Some((x as int % y as int) as i64)
            } else {
                Option::None
            },
            _ => Option::None,
        },
        Expr::IfNz(c, t, f) => match pure_val(*c, input) {
            Option::Some(vc) => if vc != 0 {
                pure_val(*t, input)
            } else {
                pure_val(*f, input)
            },
            Option::None => Option::None,
        },
    }
}

/// Runtime check for [`pure_expr`].
pub fn check_pure(e: &Expr) -> (r: bool)
    ensures
        r == pure_expr(*e),
    decreases *e,
{
    match e {
        Expr::Lit(_) => true,
        Expr::Read(_) => false,
        Expr::ReadUntracked(_) => false,
        Expr::Input => true,
        Expr::Add(a, b) => check_pure(a) && check_pure(b),
        Expr::Rem(a, b) => check_pure(a) && check_pure(b),
        Expr::IfNz(c, t, f) => check_pure(c) && check_pure(t) && check_pure(f),
    }
}

/// A pure expression performs no tracked read.
pub proof fn lemma_pure_is_untracked(e: Expr)
    requires
        pure_expr(e),
    ensures
        no_tracked_reads(e),
    decreases e,
{
    match e {
        Expr::Add(a, b) => {
            lemma_pure_is_untracked(*a);
            lemma_pure_is_untracked(*b);
        },
        Expr::Rem(a, b) => {
            lemma_pure_is_untracked(*a);
            lemma_pure_is_untracked(*b);
        },
        Expr::IfNz(c, t, f) => {
            lemma_pure_is_untracked(*c);
            lemma_pure_is_untracked(*t);
            lemma_pure_is_untracked(*f);
        },
        _ => {},
    }
}

} // verus!
