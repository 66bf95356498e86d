use vstd::prelude::*;
use std::sync::Arc;
use std::sync::atomic::{AtomicBool, AtomicIsize, AtomicUsize, Ordering};

verus! {

/// One adjustable parameter, shared between the viewer and the reader
/// thread. Each side may change it at any time, so what a load returns is
/// whatever was stored last.
pub struct Param {
    pub value: AtomicIsize,
    min: AtomicIsize,
    max: AtomicIsize,
    pub edit_name: Option<String>,
}

/// The text of an optional name.
pub open spec fn name_text(name: Option<String>) -> Option<Seq<char>> {
    match name {
        Some(n) => Some(n@),
        None => None,
    }
}

impl Param {
    /// The name under which the parameter is edited, if any.
    pub closed spec fn spec_edit_name(&self) -> Option<Seq<char>> {
        name_text(self.edit_name)
    }

    /// The current value.
    pub fn load(&self, order: Ordering) -> isize {
        self.value.load(order)
    }

    /// The lower bound of the editable range.
    pub fn load_min(&self, order: Ordering) -> isize {
        self.min.load(order)
    }

    /// The upper bound of the editable range.
    pub fn load_max(&self, order: Ordering) -> isize {
        self.max.load(order)
    }
}

/// Initial value and range of a [`Param`].
pub struct ParamBuilder {
    value: isize,
    min: isize,
    max: isize,
    edit_name: Option<String>,
}

pub open spec fn spec_min(a: isize, b: isize) -> isize {
    if a <= b { a } else { b }
}

pub open spec fn spec_max(a: isize, b: isize) -> isize {
    if a >= b { a } else { b }
}

impl ParamBuilder {
    pub closed spec fn spec_value(&self) -> isize {
        self.value
    }

    pub closed spec fn spec_min_bound(&self) -> isize {
        self.min
    }

    pub closed spec fn spec_max_bound(&self) -> isize {
        self.max
    }

    pub closed spec fn spec_edit_name(&self) -> Option<String> {
        self.edit_name
    }

    fn new() -> (r: Self)
        ensures
            r.spec_value() == 1,
            r.spec_min_bound() == 1,
            r.spec_max_bound() == 1,
            r.spec_edit_name() is None,
    {
        Self { value: 1, min: 1, max: 1, edit_name: None }
    }

    fn build(&self) -> (r: Param)
        ensures
            r.spec_edit_name() == name_text(self.spec_edit_name()),
    {
        let value = AtomicIsize::new(self.value);
        let min = AtomicIsize::new(self.min);
        let max = AtomicIsize::new(self.max);
        let edit_name = match &self.edit_name {
            Some(name) => Some(name.clone()),
            None => None,
        };
        Param { value, min, max, edit_name }
    }

    /// Sets the initial value and widens the range so that it holds the value.
    pub fn set_value_range(&mut self, value: isize, min: isize, max: isize)
        ensures
            final(self).spec_value() == value,
            final(self).spec_min_bound() == spec_min(min, value),
            final(self).spec_max_bound() == spec_max(max, value),
            final(self).spec_min_bound() <= final(self).spec_value() <= final(self).spec_max_bound(),
            final(self).spec_edit_name() == old(self).spec_edit_name(),
    {
        self.value = value;
        self.min = if min <= value { min } else { value };
        self.max = if max >= value { max } else { value };
    }
}

/// The state shared between the viewer and the reader thread.
pub struct Params {
    pub stop: AtomicBool,
    pub paused: AtomicBool,
    pub speed: AtomicUsize,
    pub param0: Param,
    pub param1: Param,
    pub param2: Param,
    pub param3: Param,
    pub param4: Param,
}

pub type ArcParams = Arc<Params>;

/// Builds [`Params`] with chosen initial values.
pub struct ParamsBuilder {
    pub param0: ParamBuilder,
    pub param1: ParamBuilder,
    pub param2: ParamBuilder,
    pub param3: ParamBuilder,
    pub param4: ParamBuilder,
}

impl ParamsBuilder {
    pub fn new() -> (r: Self)
        ensures
            r.param0.spec_value() == 1 && r.param0.spec_min_bound() == 1 && r.param0.spec_max_bound() == 1,
            r.param1.spec_value() == 1 && r.param1.spec_min_bound() == 1 && r.param1.spec_max_bound() == 1,
            r.param2.spec_value() == 1 && r.param2.spec_min_bound() == 1 && r.param2.spec_max_bound() == 1,
            r.param3.spec_value() == 1 && r.param3.spec_min_bound() == 1 && r.param3.spec_max_bound() == 1,
            r.param4.spec_value() == 1 && r.param4.spec_min_bound() == 1 && r.param4.spec_max_bound() == 1,
            r.param0.spec_edit_name() is None && r.param1.spec_edit_name() is None
                && r.param2.spec_edit_name() is None && r.param3.spec_edit_name() is None
                && r.param4.spec_edit_name() is None,
    {
        Self {
            param0: ParamBuilder::new(),
            param1: ParamBuilder::new(),
            param2: ParamBuilder::new(),
            param3: ParamBuilder::new(),
            param4: ParamBuilder::new(),
        }
    }

    /// Creates the shared state: running is paused, no stop is requested,
    /// the measured speed is zero, and each parameter starts at its builder's
    /// value and range.
    pub fn build(&self) -> (r: ArcParams)
        ensures
            r.param0.spec_edit_name() == name_text(self.param0.spec_edit_name()),
            r.param1.spec_edit_name() == name_text(self.param1.spec_edit_name()),
            r.param2.spec_edit_name() == name_text(self.param2.spec_edit_name()),
            r.param3.spec_edit_name() == name_text(self.param3.spec_edit_name()),
            r.param4.spec_edit_name() == name_text(self.param4.spec_edit_name()),
    {
        Arc::new(Params {
            stop: AtomicBool::new(false),
            paused: AtomicBool::new(true),
            speed: AtomicUsize::new(0),
            param0: self.param0.build(),
            param1: self.param1.build(),
            param2: self.param2.build(),
            param3: self.param3.build(),
            param4: self.param4.build(),
        })
    }
}

} // verus!
