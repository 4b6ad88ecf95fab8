//! A payload that carries the non-fatal problems met while producing it.

use vstd::prelude::*;

use crate::utility::text::texts;

verus! {

/// A value paired with the warnings accumulated while computing it.
///
/// Warnings only ever grow: every operation keeps the ones already recorded,
/// in order, and appends its own behind them.
#[derive(Debug)]
pub struct Warnings<T> {
    value: T,
    warnings: Vec<String>,
}

impl<T> Warnings<T> {
    /// The payload.
    pub closed spec fn value(&self) -> T {
        self.value
    }

    /// The recorded warnings, oldest first.
    pub closed spec fn warnings(&self) -> Seq<Seq<char>> {
        texts(self.warnings@)
    }

    /// Wraps a value with no warnings.
    pub fn new(value: T) -> (r: Self)
        ensures
            r.value() == value,
            r.warnings() == Seq::<Seq<char>>::empty(),
    {
        let r = Warnings { value, warnings: Vec::new() };
        assert(r.warnings() =~= Seq::<Seq<char>>::empty());
        r
    }

    /// Appends one warning, leaving the payload untouched.
    pub fn with_warning(self, warning: String) -> (r: Self)
        ensures
            r.value() == self.value(),
            r.warnings() == self.warnings().push(warning@),
    {
        let Warnings { value, mut warnings } = self;
        warnings.push(warning);
        let r = Warnings { value, warnings };
        assert(r.warnings() =~= self.warnings().push(warning@));
        r
    }

    /// Appends a batch of warnings in order, leaving the payload untouched.
    pub fn with_warnings(self, more: Vec<String>) -> (r: Self)
        ensures
            r.value() == self.value(),
            r.warnings() == self.warnings() + texts(more@),
    {
        let Warnings { value, mut warnings } = self;
        let ghost before = warnings@;
        let ghost added = more@;
        let mut more = more;
        warnings.append(&mut more);
        let r = Warnings { value, warnings };
        assert(r.warnings() =~= self.warnings() + texts(added)) by {
            assert(r.warnings@ == before + added);
        }
        r
    }

    /// Transforms the payload and keeps the warnings.
    pub fn map<U, F: FnOnce(T) -> U>(self, f: F) -> (r: Warnings<U>)
        requires
            f.requires((self.value(),)),
        ensures
            f.ensures((self.value(),), r.value()),
            r.warnings() == self.warnings(),
    {
        let Warnings { value, warnings } = self;
        Warnings { value: f(value), warnings }
    }

    /// Chains a computation that may warn: its warnings follow the ones
    /// already recorded.
    pub fn and_then<U, F: FnOnce(T) -> Warnings<U>>(self, f: F) -> (r: Warnings<U>)
        requires
            f.requires((self.value(),)),
        ensures
            exists|step: Warnings<U>|
                f.ensures((self.value(),), step) && r.value() == step.value() && r.warnings()
                    == self.warnings() + #[trigger] step.warnings(),
    {
        let Warnings { value, mut warnings } = self;
        let step = f(value);
        let Warnings { value: next, warnings: mut more } = step;
        let ghost before = warnings@;
        let ghost added = more@;
        warnings.append(&mut more);
        let r = Warnings { value: next, warnings };
        assert(r.warnings() =~= self.warnings() + step.warnings()) by {
            assert(r.warnings@ == before + added);
        }
        r
    }

    /// Splits into the payload and the warnings.
    pub fn decompose(self) -> (r: (T, Vec<String>))
        ensures
            r.0 == self.value(),
            texts(r.1@) == self.warnings(),
    {
        (self.value, self.warnings)
    }

    /// Borrows the payload.
    pub fn get(&self) -> (r: &T)
        ensures
            *r == self.value(),
    {
        &self.value
    }

    /// Number of recorded warnings.
    pub fn warning_count(&self) -> (n: usize)
        ensures
            n == self.warnings().len(),
    {
        self.warnings.len()
    }
}

} // verus!
