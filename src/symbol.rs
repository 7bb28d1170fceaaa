use vstd::prelude::*;
use vstd::utf8::encode_utf8;
use crate::ast::Span;
use crate::typing::{Type, TypeBuilder};

verus! {

/// Strict lexicographic order on byte strings: the order of `str`'s `Ord`.
pub open spec fn bytes_lt(a: Seq<u8>, b: Seq<u8>) -> bool
    decreases a.len(),
{
    if b.len() == 0 {
        false
    } else if a.len() == 0 {
        true
    } else if a[0] != b[0] {
        a[0] < b[0]
    } else {
        bytes_lt(a.drop_first(), b.drop_first())
    }
}

pub proof fn lemma_bytes_lt_irreflexive(a: Seq<u8>)
    ensures
        !bytes_lt(a, a),
    decreases a.len(),
{
    if a.len() > 0 {
        lemma_bytes_lt_irreflexive(a.drop_first());
    }
}

pub proof fn lemma_bytes_lt_transitive(a: Seq<u8>, b: Seq<u8>, c: Seq<u8>)
    requires
        bytes_lt(a, b),
        bytes_lt(b, c),
    ensures
        bytes_lt(a, c),
    decreases a.len(),
{
    if a.len() > 0 && a[0] == b[0] && b[0] == c[0] {
        lemma_bytes_lt_transitive(a.drop_first(), b.drop_first(), c.drop_first());
    }
}

pub proof fn lemma_bytes_lt_total(a: Seq<u8>, b: Seq<u8>)
    ensures
        a == b || bytes_lt(a, b) || bytes_lt(b, a),
    decreases a.len(),
{
    if a.len() > 0 && b.len() > 0 && a[0] == b[0] {
        lemma_bytes_lt_total(a.drop_first(), b.drop_first());
        if a.drop_first() == b.drop_first() {
            assert(a =~= seq![a[0]] + a.drop_first());
            assert(b =~= seq![b[0]] + b.drop_first());
        }
    } else if a.len() == 0 && b.len() == 0 {
        assert(a =~= b);
    }
}

pub proof fn lemma_bytes_lt_asymmetric(a: Seq<u8>, b: Seq<u8>)
    requires
        bytes_lt(a, b),
    ensures
        !bytes_lt(b, a),
        a != b,
{
    lemma_bytes_lt_irreflexive(a);
    if bytes_lt(b, a) {
        lemma_bytes_lt_transitive(a, b, a);
    }
}

proof fn lemma_bytes_lt_skip(a: Seq<u8>, b: Seq<u8>, i: int)
    requires
        0 <= i <= a.len(),
        i <= b.len(),
        forall|j: int| 0 <= j < i ==> a[j] == b[j],
    ensures
        bytes_lt(a, b) == bytes_lt(a.skip(i), b.skip(i)),
    decreases i,
{
    if i > 0 {
        lemma_bytes_lt_skip(a.drop_first(), b.drop_first(), i - 1);
        assert(a.drop_first().skip(i - 1) =~= a.skip(i));
        assert(b.drop_first().skip(i - 1) =~= b.skip(i));
    } else {
        assert(a.skip(0) =~= a);
        assert(b.skip(0) =~= b);
    }
}

/// Three-way comparison of two byte strings, lexicographically.
pub fn compare_bytes(a: &[u8], b: &[u8]) -> (r: core::cmp::Ordering)
    ensures
        r == core::cmp::Ordering::Less <==> bytes_lt(a@, b@),
        r == core::cmp::Ordering::Equal <==> a@ == b@,
        r == core::cmp::Ordering::Greater <==> bytes_lt(b@, a@),
{
    let mut i: usize = 0;
    while i < a.len() && i < b.len()
        invariant
            0 <= i <= a@.len(),
            i <= b@.len(),
            forall|j: int| 0 <= j < i ==> a@[j] == b@[j],
        decreases a@.len() - i,
    {
        if a[i] != b[i] {
            proof {
                lemma_bytes_lt_skip(a@, b@, i as int);
                lemma_bytes_lt_skip(b@, a@, i as int);
            }
            if a[i] < b[i] {
                return core::cmp::Ordering::Less;
            } else {
                return core::cmp::Ordering::Greater;
            }
        }
        i = i + 1;
    }
    proof {
        lemma_bytes_lt_skip(a@, b@, i as int);
        lemma_bytes_lt_skip(b@, a@, i as int);
    }
    if a.len() < b.len() {
        core::cmp::Ordering::Less
    } else if b.len() < a.len() {
        core::cmp::Ordering::Greater
    } else {
        assert(a@ =~= b@);
        proof {
            lemma_bytes_lt_irreflexive(a@);
        }
        core::cmp::Ordering::Equal
    }
}

/// A program variable: its name and its static type.
#[derive(Clone, Debug, Eq)]
pub enum Symbol {
    Variable { name: String, dtype: Type },
}

impl PartialEq for Symbol {
    fn eq(&self, other: &Symbol) -> (r: bool)
        ensures
            r == (self.name() == other.name() && self.dtype() == other.dtype()),
    {
        match (self, other) {
            (Symbol::Variable { name: n1, dtype: t1 }, Symbol::Variable { name: n2, dtype: t2 }) => {
                *n1 == *n2 && *t1 == *t2
            },
        }
    }
}

impl vstd::std_specs::cmp::PartialEqSpecImpl for Symbol {
    open spec fn obeys_eq_spec() -> bool {
        true
    }

    open spec fn eq_spec(&self, other: &Symbol) -> bool {
        self.name() == other.name() && self.dtype() == other.dtype()
    }
}

impl Symbol {
    /// The characters of the name.
    pub open spec fn name(&self) -> Seq<char> {
        match self {
            Symbol::Variable { name, .. } => name@,
        }
    }

    pub open spec fn dtype(&self) -> Type {
        match self {
            Symbol::Variable { dtype, .. } => *dtype,
        }
    }

    /// The UTF-8 bytes of the name: symbols are ordered and identified by them.
    pub open spec fn key(&self) -> Seq<u8> {
        encode_utf8(self.name())
    }

    pub fn new(name: &str, dtype: Type) -> (r: Symbol)
        ensures
            r.name() == name@,
            r.dtype() == dtype,
    {
        Symbol::Variable { name: name.to_owned(), dtype }
    }

    pub fn get_name(&self) -> (r: &str)
        ensures
            r@ == self.name(),
    {
        match self {
            Symbol::Variable { name, .. } => name.as_str(),
        }
    }

    pub fn get_type(&self) -> (r: &Type)
        ensures
            *r == self.dtype(),
    {
        match self {
            Symbol::Variable { dtype, .. } => dtype,
        }
    }

    /// An identical copy.
    pub fn duplicate(&self) -> (r: Symbol)
        ensures
            r == *self,
    {
        match self {
            Symbol::Variable { name, dtype } => Symbol::Variable { name: name.clone(), dtype: *dtype },
        }
    }

    /// Compares two symbols by name, in the lexicographic order of their bytes.
    pub fn compare(&self, other: &Symbol) -> (r: core::cmp::Ordering)
        ensures
            r == core::cmp::Ordering::Less <==> bytes_lt(self.key(), other.key()),
            r == core::cmp::Ordering::Equal <==> self.key() == other.key(),
            r == core::cmp::Ordering::Greater <==> bytes_lt(other.key(), self.key()),
    {
        compare_bytes(self.get_name().as_bytes(), other.get_name().as_bytes())
    }
}

/// Builds a symbol from the span of its name and a type set later.
#[derive(Clone, Debug)]
pub struct SymbolBuilder {
    name: Span,
    dtype: TypeBuilder,
}

impl SymbolBuilder {
    pub closed spec fn span(&self) -> Span {
        self.name
    }

    pub closed spec fn inner_type(&self) -> Option<Type> {
        self.dtype.inner()
    }

    pub fn new(name: Span) -> (r: SymbolBuilder)
        ensures
            r.span() == name,
            r.inner_type() is None,
    {
        SymbolBuilder { name, dtype: TypeBuilder::new() }
    }

    /// The span of the name.
    pub fn get_name(&self) -> (r: Span)
        ensures
            r == self.span(),
    {
        self.name
    }

    /// Sets the type of the symbol.
    pub fn dtype(&mut self, inner_type: Type)
        ensures
            final(self).span() == old(self).span(),
            final(self).inner_type() == Some(inner_type),
    {
        self.dtype.dtype(inner_type);
    }

    /// The symbol named `text`, the source text of the builder's span; an
    /// error where the type was not set.
    pub fn build(self, text: &str) -> (r: Result<Symbol, String>)
        ensures
            match self.inner_type() {
                Some(t) => r matches Ok(sym) && sym.name() == text@ && sym.dtype() == t,
                None => r matches Err(e) && e@ == "Inner type was not set!"@,
            },
    {
        match self.dtype.build() {
            Ok(t) => Ok(Symbol::new(text, t)),
            Err(e) => Err(e),
        }
    }
}

/// Table of the declared variables, by name.
///
/// Entries are kept in insertion order and their names are pairwise distinct.
#[derive(Clone, Debug)]
pub struct SymbolTable {
    table: Vec<Symbol>,
}

impl SymbolTable {
    /// The declared symbols, in insertion order.
    pub closed spec fn symbols(&self) -> Seq<Symbol> {
        self.table@
    }

    pub closed spec fn wf(&self) -> bool {
        forall|i: int, j: int|
            0 <= i < j < self.table@.len() ==> #[trigger] self.table@[i].name()
                != #[trigger] self.table@[j].name()
    }

    /// Whether a symbol of that name is declared.
    pub open spec fn declares(&self, name: Seq<char>) -> bool {
        exists|i: int| 0 <= i < self.symbols().len() && #[trigger] self.symbols()[i].name() == name
    }

    /// The symbol declared under `name`, if any.
    pub open spec fn lookup(&self, name: Seq<char>) -> Option<Symbol> {
        if self.declares(name) {
            Some(
                self.symbols()[choose|i: int|
                    0 <= i < self.symbols().len() && #[trigger] self.symbols()[i].name() == name],
            )
        } else {
            None
        }
    }

    pub fn new() -> (r: SymbolTable)
        ensures
            r.wf(),
            r.symbols().len() == 0,
    {
        SymbolTable { table: Vec::new() }
    }

    fn position(&self, name: &String) -> (r: Option<usize>)
        requires
            self.wf(),
        ensures
            match r {
                Some(i) => i < self.symbols().len() && self.symbols()[i as int].name() == name@,
                None => !self.declares(name@),
            },
            r.is_some() == self.declares(name@),
    {
        let mut i: usize = 0;
        while i < self.table.len()
            invariant
                0 <= i <= self.table@.len(),
                forall|j: int| 0 <= j < i ==> self.table@[j].name() != name@,
            decreases self.table@.len() - i,
        {
            let found = match &self.table[i] {
                Symbol::Variable { name: n, .. } => *n == *name,
            };
            if found {
                return Some(i);
            }
            i = i + 1;
        }
        proof {
            assert forall|j: int| 0 <= j < self.symbols().len() implies #[trigger] self.symbols()[j].name()
                != name@ by {}
        }
        None
    }

    proof fn lemma_lookup_at(&self, i: int)
        requires
            self.wf(),
            0 <= i < self.symbols().len(),
        ensures
            self.lookup(self.symbols()[i].name()) == Some(self.symbols()[i]),
    {
        let name = self.symbols()[i].name();
        assert(self.declares(name));
        let k = choose|k: int| 0 <= k < self.symbols().len() && #[trigger] self.symbols()[k].name() == name;
        if k != i {
            if k < i {
                assert(self.table@[k].name() != self.table@[i].name());
            } else {
                assert(self.table@[i].name() != self.table@[k].name());
            }
        }
    }

    pub fn get(&self, name: &str) -> (r: Option<&Symbol>)
        requires
            self.wf(),
        ensures
            match self.lookup(name@) {
                Some(s) => r == Some(&s),
                None => r.is_none(),
            },
    {
        let wanted = name.to_owned();
        match self.position(&wanted) {
            Some(i) => {
                proof {
                    self.lemma_lookup_at(i as int);
                }
                Some(&self.table[i])
            },
            None => None,
        }
    }

    /// Declares the symbol that `s` builds under the name `text`, the source
    /// text of the builder's span. A name that is already declared is an
    /// error, and so is a builder whose type was not set.
    pub fn insert_builder(&mut self, s: SymbolBuilder, text: &str) -> (r: Result<(), String>)
        requires
            old(self).wf(),
        ensures
            final(self).wf(),
            r.is_ok() == (!old(self).declares(text@) && s.inner_type() is Some),
            old(self).declares(text@) ==> r->Err_0@ == "Variable declared multiple times"@,
            !old(self).declares(text@) && s.inner_type() is None ==> r->Err_0@ == "Inner type was not set!"@,
            r.is_err() ==> *final(self) == *old(self),
            r.is_ok() ==> (final(self).lookup(text@) matches Some(sym) && sym.name() == text@ && sym.dtype()
                == s.inner_type()->0),
    {
        let wanted = text.to_owned();
        if self.position(&wanted).is_some() {
            return Err("Variable declared multiple times".to_owned());
        }
        let symb = match s.build(text) {
            Ok(symb) => symb,
            Err(e) => {
                return Err(e);
            },
        };
        self.insert_symbol(symb, false)
    }

    /// Declares `s`. With `check`, a name that is already declared is an error
    /// and the table is left as it was; without it, the new symbol replaces the
    /// one of that name.
    pub fn insert_symbol(&mut self, s: Symbol, check: bool) -> (r: Result<(), String>)
        requires
            old(self).wf(),
        ensures
            final(self).wf(),
            r.is_err() == (check && old(self).declares(s.name())),
            r.is_err() ==> r->Err_0@ == "Multiple variables with same name defined"@,
            r.is_err() ==> *final(self) == *old(self),
            r.is_ok() ==> final(self).lookup(s.name()) == Some(s),
            r.is_ok() ==> forall|n: Seq<char>|
                n != s.name() ==> #[trigger] final(self).lookup(n) == old(self).lookup(n),
    {
        let pos = match &s {
            Symbol::Variable { name, .. } => self.position(name),
        };
        match pos {
            Some(i) => {
                if check {
                    return Err("Multiple variables with same name defined".to_owned());
                }
                let ghost before = self.table@;
                self.table.set(i, s);
                proof {
                    assert(self.table@ == before.update(i as int, s));
                    self.lemma_lookup_at(i as int);
                    assert forall|n: Seq<char>| n != s.name() implies #[trigger] self.lookup(n)
                        == old(self).lookup(n) by {
                        if old(self).declares(n) {
                            let k = choose|k: int|
                                0 <= k < old(self).symbols().len()
                                    && #[trigger] old(self).symbols()[k].name() == n;
                            old(self).lemma_lookup_at(k);
                            self.lemma_lookup_at(k);
                        } else {
                            if self.declares(n) {
                                let k = choose|k: int|
                                    0 <= k < self.symbols().len()
                                        && #[trigger] self.symbols()[k].name() == n;
                                assert(old(self).symbols()[k].name() == n);
                            }
                        }
                    }
                }
                Ok(())
            },
            None => {
                let ghost before = self.table@;
                self.table.push(s);
                proof {
                    let last = before.len() as int;
                    assert(self.table@[last] == s);
                    assert forall|i: int, j: int|
                        0 <= i < j < self.table@.len() implies #[trigger] self.table@[i].name()
                            != #[trigger] self.table@[j].name() by {
                        if j == last {
                            assert(old(self).symbols()[i].name() != s.name());
                        } else {
                            assert(before[i].name() != before[j].name());
                        }
                    }
                    self.lemma_lookup_at(last);
                    assert forall|n: Seq<char>| n != s.name() implies #[trigger] self.lookup(n)
                        == old(self).lookup(n) by {
                        if old(self).declares(n) {
                            let k = choose|k: int|
                                0 <= k < old(self).symbols().len()
                                    && #[trigger] old(self).symbols()[k].name() == n;
                            old(self).lemma_lookup_at(k);
                            self.lemma_lookup_at(k);
                        } else {
                            if self.declares(n) {
                                let k = choose|k: int|
                                    0 <= k < self.symbols().len()
                                        && #[trigger] self.symbols()[k].name() == n;
                                assert(old(self).symbols()[k].name() == n);
                            }
                        }
                    }
                }
                Ok(())
            },
        }
    }
}

} // verus!
