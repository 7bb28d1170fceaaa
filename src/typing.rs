use vstd::prelude::*;

verus! {

/// The static type of a program variable.
#[derive(Clone, Copy, Debug, PartialEq, Eq, Structural)]
pub enum Type {
    Int,
    Bool,
}

/// Table of the named types a program may refer to.
///
/// Entries are kept in insertion order and their names are pairwise distinct.
#[derive(Clone, Debug)]
pub struct TypeTable {
    table: Vec<(String, Type)>,
}

impl TypeTable {
    /// The named types, in insertion order.
    pub closed spec fn entries(&self) -> Seq<(Seq<char>, Type)> {
        self.table@.map_values(|e: (String, Type)| (e.0@, e.1))
    }

    pub closed spec fn wf(&self) -> bool {
        forall|i: int, j: int|
            0 <= i < j < self.table@.len() ==> #[trigger] self.table@[i].0@ != #[trigger] self.table@[j].0@
    }

    /// The type registered under `tname`, if any.
    pub open spec fn lookup(&self, tname: Seq<char>) -> Option<Type> {
        if exists|i: int| 0 <= i < self.entries().len() && #[trigger] self.entries()[i].0 == tname {
            let i = choose|i: int| 0 <= i < self.entries().len() && #[trigger] self.entries()[i].0 == tname;
            Some(self.entries()[i].1)
        } else {
            None
        }
    }

    pub fn new() -> (r: TypeTable)
        ensures
            r.wf(),
            r.entries().len() == 0,
    {
        TypeTable { table: Vec::new() }
    }

    pub fn get(&self, tname: &str) -> (r: Option<&Type>)
        requires
            self.wf(),
        ensures
            match self.lookup(tname@) {
                Some(t) => r == Some(&t),
                None => r.is_none(),
            },
    {
        let wanted = tname.to_owned();
        let mut i: usize = 0;
        while i < self.table.len()
            invariant
                0 <= i <= self.table@.len(),
                wanted@ == tname@,
                self.wf(),
                self.entries().len() == self.table@.len(),
                forall|j: int| 0 <= j < i ==> self.entries()[j].0 != tname@,
            decreases self.table@.len() - i,
        {
            if self.table[i].0 == wanted {
                proof {
                    assert(self.entries()[i as int].0 == tname@);
                    let k = choose|k: int| 0 <= k < self.entries().len() && #[trigger] self.entries()[k].0 == tname@;
                    assert(self.entries()[k].0 == self.table@[k].0@);
                    assert(self.entries()[i as int].0 == self.table@[i as int].0@);
                    if k > i as int {
                        assert(self.table@[i as int].0@ != self.table@[k].0@);
                    }
                    assert(k == i as int);
                }
                return Some(&self.table[i].1);
            }
            i = i + 1;
        }
        proof {
            assert forall|j: int| 0 <= j < self.entries().len() implies #[trigger] self.entries()[j].0 != tname@ by {}
        }
        None
    }
}

/// Builder for a type whose inner type is set later.
#[derive(Clone, Debug)]
pub struct TypeBuilder {
    dtype: Option<Type>,
}

impl TypeBuilder {
    pub closed spec fn inner(&self) -> Option<Type> {
        self.dtype
    }

    pub fn new() -> (r: TypeBuilder)
        ensures
            r.inner() == None::<Type>,
    {
        TypeBuilder { dtype: None }
    }

    /// Sets the inner type.
    pub fn dtype(&mut self, inner_type: Type)
        ensures
            final(self).inner() == Some(inner_type),
    {
        self.dtype = Some(inner_type);
    }

    /// The type that was set, or an error when none was.
    pub fn build(self) -> (r: Result<Type, String>)
        ensures
            match self.inner() {
                Some(t) => r == Ok::<Type, String>(t),
                None => r matches Err(e) && e@ == "Inner type was not set!"@,
            },
    {
        match self.dtype {
            Some(t) => Ok(t),
            None => Err("Inner type was not set!".to_owned()),
        }
    }
}

} // verus!
