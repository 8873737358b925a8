//! Scope frames and the scope stack, with the console buffers and the
//! evaluation budget that travel with it.

use vstd::prelude::*;
use crate::ast::{Expression, Term};
use crate::builtin_functions::{builtin_functions, registry};

verus! {

/// The model of an evaluation context.
pub struct Machine {
    /// The scope frames, the root frame first and the innermost last.
    pub frames: Seq<Map<Seq<char>, Term>>,
    /// The console lines that have not been read yet, as they were typed.
    pub input: Seq<Seq<char>>,
    /// Whether more console lines may arrive once these are read. Where none
    /// may, the console is at its end once they are.
    pub input_open: bool,
    /// Everything written to the console so far.
    pub output: Seq<char>,
    /// The number of evaluation steps that may still be taken.
    pub budget: nat,
}

/// The value bound to `name` in the innermost frame that binds it.
pub open spec fn resolve_in(frames: Seq<Map<Seq<char>, Term>>, name: Seq<char>) -> Option<Term>
    decreases frames.len(),
{
    if frames.len() == 0 {
        None
    } else if frames.last().contains_key(name) {
        Some(frames.last()[name])
    } else {
        resolve_in(frames.drop_last(), name)
    }
}

impl Machine {
    /// The context in which a program starts: the root frame holds the
    /// built-in functions, the console is empty and at its end, the budget is
    /// full.
    pub open spec fn initial() -> Machine {
        Machine {
            frames: seq![registry()],
            input: Seq::empty(),
            input_open: false,
            output: Seq::empty(),
            budget: u64::MAX as nat,
        }
    }

    /// A new empty frame on top.
    pub open spec fn enter(self) -> Machine {
        Machine { frames: self.frames.push(Map::empty()), ..self }
    }

    /// The top frame removed, unless it is the only one.
    pub open spec fn exit(self) -> Machine {
        if self.frames.len() > 1 {
            Machine { frames: self.frames.drop_last(), ..self }
        } else {
            self
        }
    }

    /// The value of `name`, searched from the top frame down.
    pub open spec fn resolve(self, name: Seq<char>) -> Option<Term> {
        resolve_in(self.frames, name)
    }

    /// `name` bound to `value` in the frame just below the top one. A stack of
    /// a single frame has no such frame and stays as it is.
    pub open spec fn bind_outer(self, name: Seq<char>, value: Term) -> Machine {
        if self.frames.len() >= 2 {
            let at = self.frames.len() - 2;
            Machine { frames: self.frames.update(at, self.frames[at].insert(name, value)), ..self }
        } else {
            self
        }
    }

    /// One step taken from the budget.
    pub open spec fn spend(self) -> Machine {
        Machine { budget: (self.budget - 1) as nat, ..self }
    }

    /// `text` written to the console.
    pub open spec fn write(self, text: Seq<char>) -> Machine {
        Machine { output: self.output + text, ..self }
    }

    /// The oldest unread console line removed.
    pub open spec fn skip_line(self) -> Machine {
        if self.input.len() > 0 {
            Machine { input: self.input.drop_first(), ..self }
        } else {
            self
        }
    }
}

/// A name and the value bound to it.
struct Binding {
    name: String,
    value: Expression,
}

/// One frame of the scope stack: a mapping from names to values in which the
/// last write to a name wins.
pub struct EvaluationScope {
    variables: Vec<Binding>,
}

impl Binding {
    /// A copy with the same name and an equal value.
    fn copy(&self) -> (out: Binding)
        ensures
            out.name@ == self.name@,
            out.value@ == self.value@,
    {
        Binding { name: self.name.clone(), value: self.value.clone() }
    }
}

/// The value that the last entry for `name` holds.
spec fn lookup(entries: Seq<Binding>, name: Seq<char>) -> Option<Term>
    decreases entries.len(),
{
    if entries.len() == 0 {
        None
    } else if entries.last().name@ == name {
        Some(entries.last().value@)
    } else {
        lookup(entries.drop_last(), name)
    }
}

proof fn lemma_lookup_overwrite(entries: Seq<Binding>, i: int, b: Binding, k: Seq<char>)
    requires
        0 <= i < entries.len(),
        entries[i].name@ == b.name@,
        forall|j: int| i < j < entries.len() ==> entries[j].name@ != b.name@,
    ensures
        lookup(entries.update(i, b), k) == if k == b.name@ {
            Some(b.value@)
        } else {
            lookup(entries, k)
        },
    decreases entries.len(),
{
    if i == entries.len() - 1 {
        assert(entries.update(i, b).drop_last() =~= entries.drop_last());
    } else {
        assert(entries.update(i, b).drop_last() =~= entries.drop_last().update(i, b));
        lemma_lookup_overwrite(entries.drop_last(), i, b, k);
    }
}

proof fn lemma_lookup_absent(entries: Seq<Binding>, k: Seq<char>)
    requires
        forall|j: int| 0 <= j < entries.len() ==> entries[j].name@ != k,
    ensures
        lookup(entries, k) is None,
    decreases entries.len(),
{
    if entries.len() > 0 {
        lemma_lookup_absent(entries.drop_last(), k);
    }
}

proof fn lemma_lookup_found(entries: Seq<Binding>, i: int, k: Seq<char>)
    requires
        0 <= i < entries.len(),
        entries[i].name@ == k,
        forall|j: int| i < j < entries.len() ==> entries[j].name@ != k,
    ensures
        lookup(entries, k) == Some(entries[i].value@),
    decreases entries.len(),
{
    if i < entries.len() - 1 {
        lemma_lookup_found(entries.drop_last(), i, k);
    }
}

impl View for EvaluationScope {
    type V = Map<Seq<char>, Term>;

    closed spec fn view(&self) -> Map<Seq<char>, Term> {
        Map::new(
            |k: Seq<char>| lookup(self.variables@, k) is Some,
            |k: Seq<char>| lookup(self.variables@, k)->Some_0,
        )
    }
}

proof fn lemma_lookup_same(a: Seq<Binding>, b: Seq<Binding>, k: Seq<char>)
    requires
        a.len() == b.len(),
        forall|j: int| 0 <= j < a.len() ==> a[j].name@ == b[j].name@ && a[j].value@ == b[j].value@,
    ensures
        lookup(a, k) == lookup(b, k),
    decreases a.len(),
{
    if a.len() > 0 {
        lemma_lookup_same(a.drop_last(), b.drop_last(), k);
    }
}

impl Clone for EvaluationScope {
    fn clone(&self) -> (out: EvaluationScope)
        ensures
            out@ == self@,
    {
        let mut variables: Vec<Binding> = Vec::new();
        let mut i: usize = 0;
        while i < self.variables.len()
            invariant
                i <= self.variables@.len(),
                variables@.len() == i,
                forall|j: int|
                    0 <= j < i ==> variables@[j].name@ == self.variables@[j].name@
                        && variables@[j].value@ == self.variables@[j].value@,
            decreases self.variables@.len() - i,
        {
            variables.push(self.variables[i].copy());
            i += 1;
        }
        let out = EvaluationScope { variables };
        proof {
            assert forall|k: Seq<char>|
                lookup(out.variables@, k) == lookup(self.variables@, k) by {
                lemma_lookup_same(out.variables@, self.variables@, k);
            }
            assert(out@ =~= self@);
        }
        out
    }
}

impl EvaluationScope {
    /// The root frame: the built-in functions under their names.
    pub fn new_default() -> (scope: EvaluationScope)
        ensures
            scope@ == registry(),
    {
        builtin_functions()
    }

    /// A frame that binds nothing.
    pub fn new_empty() -> (scope: EvaluationScope)
        ensures
            scope@ == Map::<Seq<char>, Term>::empty(),
    {
        let scope = EvaluationScope { variables: Vec::new() };
        assert(scope@ =~= Map::<Seq<char>, Term>::empty());
        scope
    }

    /// The index of the last entry for `name`, if there is one.
    fn position(&self, name: &String) -> (at: Option<usize>)
        ensures
            match at {
                Some(i) => i < self.variables@.len() && self.variables@[i as int].name@ == name@
                    && forall|j: int|
                    i < j < self.variables@.len() ==> self.variables@[j].name@ != name@,
                None => forall|j: int|
                    0 <= j < self.variables@.len() ==> self.variables@[j].name@ != name@,
            },
    {
        let mut i: usize = self.variables.len();
        while i > 0
            invariant
                i <= self.variables@.len(),
                forall|j: int| i <= j < self.variables@.len() ==> self.variables@[j].name@ != name@,
            decreases i,
        {
            i -= 1;
            if self.variables[i].name == *name {
                return Some(i);
            }
        }
        None
    }

    /// A copy of the value bound to `name`, if the frame binds it.
    pub fn get(&self, name: &String) -> (found: Option<Expression>)
        ensures
            found is Some == self@.contains_key(name@),
            found is Some ==> found->Some_0@ == self@[name@],
    {
        match self.position(name) {
            Some(i) => {
                proof {
                    lemma_lookup_found(self.variables@, i as int, name@);
                }
                Some(self.variables[i].value.clone())
            },
            None => {
                proof {
                    lemma_lookup_absent(self.variables@, name@);
                }
                None
            },
        }
    }

    /// Binds `name` to `value`, in place of what it was bound to before.
    pub fn insert(&mut self, name: String, value: Expression)
        ensures
            final(self)@ == old(self)@.insert(name@, value@),
    {
        let at = self.position(&name);
        let entry = Binding { name, value };
        let ghost before = self.variables@;
        match at {
            Some(i) => {
                self.variables.set(i, entry);
                proof {
                    assert forall|k: Seq<char>|
                        lookup(self.variables@, k) == if k == entry.name@ {
                            Some(entry.value@)
                        } else {
                            lookup(before, k)
                        } by {
                        lemma_lookup_overwrite(before, i as int, entry, k);
                    }
                }
            },
            None => {
                self.variables.push(entry);
                assert(self.variables@.drop_last() =~= before);
            },
        }
        assert(self@ =~= old(self)@.insert(entry.name@, entry.value@));
    }
}

/// The scope stack of one program run, together with the console buffers
/// and the evaluation budget.
pub struct EvaluationContext {
    root: EvaluationScope,
    inner: Vec<EvaluationScope>,
    input: Vec<String>,
    consumed: usize,
    input_open: bool,
    output: String,
    budget: u64,
}

impl View for EvaluationContext {
    type V = Machine;

    closed spec fn view(&self) -> Machine {
        Machine {
            frames: seq![self.root@] + Seq::new(self.inner@.len(), |i: int| self.inner@[i]@),
            input: if self.consumed <= self.input@.len() {
                Seq::new(
                    (self.input@.len() - self.consumed) as nat,
                    |i: int| self.input@[self.consumed + i]@,
                )
            } else {
                Seq::empty()
            },
            input_open: self.input_open,
            output: self.output@,
            budget: self.budget as nat,
        }
    }
}

impl Clone for EvaluationContext {
    fn clone(&self) -> (out: EvaluationContext)
        ensures
            out@ == self@,
    {
        let mut inner: Vec<EvaluationScope> = Vec::new();
        let mut i: usize = 0;
        while i < self.inner.len()
            invariant
                i <= self.inner@.len(),
                inner@.len() == i,
                forall|j: int| 0 <= j < i ==> inner@[j]@ == self.inner@[j]@,
            decreases self.inner@.len() - i,
        {
            inner.push(self.inner[i].clone());
            i += 1;
        }
        let mut input: Vec<String> = Vec::new();
        let mut k: usize = 0;
        while k < self.input.len()
            invariant
                k <= self.input@.len(),
                input@.len() == k,
                forall|j: int| 0 <= j < k ==> input@[j]@ == self.input@[j]@,
            decreases self.input@.len() - k,
        {
            input.push(self.input[k].clone());
            k += 1;
        }
        let out = EvaluationContext {
            root: self.root.clone(),
            inner,
            input,
            consumed: self.consumed,
            input_open: self.input_open,
            output: self.output.clone(),
            budget: self.budget,
        };
        assert(out@.frames =~= self@.frames);
        assert(out@.input =~= self@.input);
        out
    }
}

impl EvaluationContext {
    /// The context in which a program starts.
    pub fn new() -> (ctx: EvaluationContext)
        ensures
            ctx@ == Machine::initial(),
    {
        let ctx = EvaluationContext {
            root: EvaluationScope::new_default(),
            inner: Vec::new(),
            input: Vec::new(),
            consumed: 0,
            input_open: false,
            output: String::new(),
            budget: u64::MAX,
        };
        assert(ctx@.frames =~= seq![registry()]);
        assert(ctx@.input =~= Seq::empty());
        ctx
    }

    /// The stack always holds its root frame.
    pub proof fn lemma_depth(&self)
        ensures
            self@.frames.len() >= 1,
    {
    }

    /// Pushes a new empty frame.
    pub fn enter_scope(&mut self)
        ensures
            final(self)@ == old(self)@.enter(),
    {
        self.inner.push(EvaluationScope::new_empty());
        assert(self@.frames =~= old(self)@.frames.push(Map::empty()));
    }

    /// Pops the top frame, unless it is the root frame.
    pub fn exit_scope(&mut self)
        ensures
            final(self)@ == old(self)@.exit(),
    {
        if self.inner.len() > 0 {
            self.inner.pop();
            assert(self@.frames =~= old(self)@.frames.drop_last());
        }
    }

    /// A copy of the value of `var_name` in the innermost frame that binds
    /// it; `None` where no frame does.
    pub fn resolve_var(&self, var_name: String) -> (found: Option<Expression>)
        ensures
            found is Some == self@.resolve(var_name@) is Some,
            found is Some ==> found->Some_0@ == self@.resolve(var_name@)->Some_0,
    {
        let ghost frames = self@.frames;
        let mut i: usize = self.inner.len();
        assert(frames.subrange(0, i + 1) =~= frames);
        while i > 0
            invariant
                i <= self.inner@.len(),
                frames == self@.frames,
                resolve_in(frames, var_name@) == resolve_in(frames.subrange(0, i + 1), var_name@),
            decreases i,
        {
            i -= 1;
            assert(frames.subrange(0, i + 2).last() == self.inner@[i as int]@);
            assert(frames.subrange(0, i + 2).drop_last() =~= frames.subrange(0, i + 1));
            match self.inner[i].get(&var_name) {
                Some(value) => {
                    return Some(value);
                },
                None => {},
            }
        }
        let found = self.root.get(&var_name);
        proof {
            let bottom = frames.subrange(0, 1);
            assert(bottom.last() == self.root@);
            assert(bottom.drop_last().len() == 0);
            assert(resolve_in(bottom.drop_last(), var_name@) is None);
            assert(resolve_in(bottom, var_name@) == if self.root@.contains_key(var_name@) {
                Some(self.root@[var_name@])
            } else {
                None
            });
        }
        found
    }

    /// Binds `var_name` to `value` in the frame just below the top one.
    pub fn add_local_var(&mut self, var_name: String, value: Expression)
        requires
            old(self)@.frames.len() >= 2,
        ensures
            final(self)@ == old(self)@.bind_outer(var_name@, value@),
    {
        let n: usize = self.inner.len();
        if n >= 2 {
            let top = self.inner.pop().unwrap();
            let mut outer = self.inner.pop().unwrap();
            outer.insert(var_name, value);
            self.inner.push(outer);
            self.inner.push(top);
        } else {
            self.root.insert(var_name, value);
        }
        assert(self@.frames =~= old(self)@.bind_outer(var_name@, value@).frames);
    }

    /// The number of evaluation steps that may still be taken.
    pub fn budget(&self) -> (n: u64)
        ensures
            n == self@.budget,
    {
        self.budget
    }

    /// Sets the number of evaluation steps that may still be taken.
    pub fn set_budget(&mut self, steps: u64)
        ensures
            final(self)@ == (Machine { budget: steps as nat, ..old(self)@ }),
    {
        self.budget = steps;
    }

    /// Takes one step from the budget, if one is left, and says whether one
    /// was.
    pub fn spend(&mut self) -> (granted: bool)
        ensures
            granted == (old(self)@.budget > 0),
            granted ==> final(self)@ == old(self)@.spend(),
            !granted ==> final(self)@ == old(self)@,
    {
        if self.budget > 0 {
            self.budget = self.budget - 1;
            true
        } else {
            false
        }
    }

    /// Queues one console line, as it was typed, for the program to read.
    pub fn push_input_line(&mut self, line: String)
        ensures
            final(self)@ == (Machine { input: old(self)@.input.push(line@), ..old(self)@ }),
    {
        if self.consumed > self.input.len() {
            self.consumed = self.input.len();
        }
        self.input.push(line);
        assert(self@.input =~= old(self)@.input.push(line@));
    }

    /// Says whether more console lines may arrive once the queued ones are
    /// read.
    pub fn set_input_open(&mut self, open: bool)
        ensures
            final(self)@ == (Machine { input_open: open, ..old(self)@ }),
    {
        self.input_open = open;
    }

    /// Whether more console lines may arrive once the queued ones are read.
    pub fn input_open(&self) -> (open: bool)
        ensures
            open == self@.input_open,
    {
        self.input_open
    }

    /// Removes the oldest unread console line and returns it; `None` where
    /// every line has been read.
    pub fn read_line(&mut self) -> (line: Option<String>)
        ensures
            final(self)@ == old(self)@.skip_line(),
            line is Some == (old(self)@.input.len() > 0),
            line is Some ==> line->Some_0@ == old(self)@.input[0],
    {
        if self.consumed < self.input.len() {
            let line = self.input[self.consumed].clone();
            self.consumed = self.consumed + 1;
            assert(self@.input =~= old(self)@.input.drop_first());
            Some(line)
        } else {
            None
        }
    }

    /// Writes `text` to the console buffer.
    pub fn write_output(&mut self, text: &str)
        ensures
            final(self)@ == old(self)@.write(text@),
    {
        self.output.append(text);
    }

    /// Returns what was written to the console buffer and empties it.
    pub fn take_output(&mut self) -> (text: String)
        ensures
            text@ == old(self)@.output,
            final(self)@ == (Machine { output: Seq::empty(), ..old(self)@ }),
    {
        let text = self.output.clone();
        self.output = String::new();
        text
    }
}

} // verus!
