use vstd::prelude::*;

verus! {

/// Relies on `num_cpus::get`: the number of logical CPUs of this machine,
/// documented to always be at least 1.
#[verifier::external_body]
fn cpu_count() -> (n: usize)
    ensures
        n >= 1,
{
    num_cpus::get()
}

/// Immutable crawl configuration, shared by every component.
#[derive(Debug, Clone)]
pub struct Options {
    pub max_task_count: usize,
    pub remove_query_and_fragment: bool,
    pub max_recursion: usize,
    pub verbose: bool,
}

impl Options {
    pub open spec fn spec_max_task_count(&self) -> usize {
        self.max_task_count
    }

    pub open spec fn spec_remove_query_and_fragment(&self) -> bool {
        self.remove_query_and_fragment
    }

    pub open spec fn spec_max_recursion(&self) -> usize {
        self.max_recursion
    }

    pub open spec fn spec_verbose(&self) -> bool {
        self.verbose
    }

    pub fn new(
        max_task_count: usize,
        remove_query_and_fragment: bool,
        max_recursion: usize,
        verbose: bool,
    ) -> (r: Options)
        ensures
            r.spec_max_task_count() == max_task_count,
            r.spec_remove_query_and_fragment() == remove_query_and_fragment,
            r.spec_max_recursion() == max_recursion,
            r.spec_verbose() == verbose,
    {
        Options { max_task_count, remove_query_and_fragment, max_recursion, verbose }
    }

    pub fn builder() -> (r: OptionsBuilder)
        ensures
            r.spec_max_task_count() >= 1,
            !r.spec_remove_query_and_fragment(),
            r.spec_max_recursion() == 50,
            !r.spec_verbose(),
    {
        OptionsBuilder::new()
    }

    pub fn max_task_count(&self) -> (r: usize)
        ensures
            r == self.spec_max_task_count(),
    {
        self.max_task_count
    }

    pub fn remove_query_and_fragment(&self) -> (r: bool)
        ensures
            r == self.spec_remove_query_and_fragment(),
    {
        self.remove_query_and_fragment
    }

    pub fn max_recursion(&self) -> (r: usize)
        ensures
            r == self.spec_max_recursion(),
    {
        self.max_recursion
    }

    pub fn verbose(&self) -> (r: bool)
        ensures
            r == self.spec_verbose(),
    {
        self.verbose
    }
}

impl Default for Options {
    fn default() -> (r: Self)
        ensures
            r.spec_max_task_count() >= 1,
            !r.spec_remove_query_and_fragment(),
            r.spec_max_recursion() == 50,
            !r.spec_verbose(),
    {
        OptionsBuilder::new().build()
    }
}

/// Builder for `Options`, starting from the defaults: one task per CPU core,
/// queries kept, depth 50, quiet.
#[derive(Debug, Clone, Copy)]
pub struct OptionsBuilder {
    pub max_task_count: usize,
    pub remove_query_and_fragment: bool,
    pub max_recursion: usize,
    pub verbose: bool,
}

impl OptionsBuilder {
    pub open spec fn spec_max_task_count(&self) -> usize {
        self.max_task_count
    }

    pub open spec fn spec_remove_query_and_fragment(&self) -> bool {
        self.remove_query_and_fragment
    }

    pub open spec fn spec_max_recursion(&self) -> usize {
        self.max_recursion
    }

    pub open spec fn spec_verbose(&self) -> bool {
        self.verbose
    }

    pub fn new() -> (r: OptionsBuilder)
        ensures
            r.spec_max_task_count() >= 1,
            !r.spec_remove_query_and_fragment(),
            r.spec_max_recursion() == 50,
            !r.spec_verbose(),
    {
        OptionsBuilder {
            max_task_count: cpu_count(),
            remove_query_and_fragment: false,
            max_recursion: 50,
            verbose: false,
        }
    }

    pub fn build(self) -> (r: Options)
        ensures
            r.spec_max_task_count() == self.spec_max_task_count(),
            r.spec_remove_query_and_fragment() == self.spec_remove_query_and_fragment(),
            r.spec_max_recursion() == self.spec_max_recursion(),
            r.spec_verbose() == self.spec_verbose(),
    {
        Options {
            max_task_count: self.max_task_count,
            remove_query_and_fragment: self.remove_query_and_fragment,
            max_recursion: self.max_recursion,
            verbose: self.verbose,
        }
    }

    pub fn set_max_task_count(self, max_task_count: usize) -> (r: OptionsBuilder)
        ensures
            r.spec_max_task_count() == max_task_count,
            r.spec_remove_query_and_fragment() == self.spec_remove_query_and_fragment(),
            r.spec_max_recursion() == self.spec_max_recursion(),
            r.spec_verbose() == self.spec_verbose(),
    {
        OptionsBuilder { max_task_count, ..self }
    }

    pub fn set_remove_query_and_fragment(self, remove_query_and_fragment: bool) -> (r:
        OptionsBuilder)
        ensures
            r.spec_max_task_count() == self.spec_max_task_count(),
            r.spec_remove_query_and_fragment() == remove_query_and_fragment,
            r.spec_max_recursion() == self.spec_max_recursion(),
            r.spec_verbose() == self.spec_verbose(),
    {
        OptionsBuilder { remove_query_and_fragment, ..self }
    }

    pub fn set_max_recursion(self, max_recursion: usize) -> (r: OptionsBuilder)
        ensures
            r.spec_max_task_count() == self.spec_max_task_count(),
            r.spec_remove_query_and_fragment() == self.spec_remove_query_and_fragment(),
            r.spec_max_recursion() == max_recursion,
            r.spec_verbose() == self.spec_verbose(),
    {
        OptionsBuilder { max_recursion, ..self }
    }

    pub fn set_verbose(self, verbose: bool) -> (r: OptionsBuilder)
        ensures
            r.spec_max_task_count() == self.spec_max_task_count(),
            r.spec_remove_query_and_fragment() == self.spec_remove_query_and_fragment(),
            r.spec_max_recursion() == self.spec_max_recursion(),
            r.spec_verbose() == verbose,
    {
        OptionsBuilder { verbose, ..self }
    }

    pub fn max_task_count(&self) -> (r: usize)
        ensures
            r == self.spec_max_task_count(),
    {
        self.max_task_count
    }

    pub fn remove_query_and_fragment(&self) -> (r: bool)
        ensures
            r == self.spec_remove_query_and_fragment(),
    {
        self.remove_query_and_fragment
    }

    pub fn max_recursion(&self) -> (r: usize)
        ensures
            r == self.spec_max_recursion(),
    {
        self.max_recursion
    }

    pub fn verbose(&self) -> (r: bool)
        ensures
            r == self.spec_verbose(),
    {
        self.verbose
    }
}

impl Default for OptionsBuilder {
    fn default() -> (r: Self)
        ensures
            r.spec_max_task_count() >= 1,
            !r.spec_remove_query_and_fragment(),
            r.spec_max_recursion() == 50,
            !r.spec_verbose(),
    {
        OptionsBuilder::new()
    }
}

} // verus!
