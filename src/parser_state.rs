use vstd::prelude::*;
use crate::symbol::{Symbol, SymbolTable};
use crate::typing::TypeTable;

verus! {

/// What the parser keeps while it reads a program: the declared variables
/// and the named types.
pub struct ParserState {
    pub sym_table: SymbolTable,
    pub type_table: TypeTable,
}

impl ParserState {
    pub open spec fn wf(&self) -> bool {
        self.sym_table.wf() && self.type_table.wf()
    }

    /// A state with no declaration.
    pub fn new() -> (r: ParserState)
        ensures
            r.wf(),
            r.sym_table.symbols().len() == 0,
            r.type_table.entries().len() == 0,
    {
        ParserState { sym_table: SymbolTable::new(), type_table: TypeTable::new() }
    }

    /// The variable declared under `name`, or an error where there is none.
    pub fn get_var(&self, name: &str) -> (r: Result<Symbol, String>)
        requires
            self.wf(),
        ensures
            match self.sym_table.lookup(name@) {
                Some(s) => r == Ok::<Symbol, String>(s),
                None => r matches Err(e) && e@ == "Variable was not declared"@,
            },
    {
        match self.sym_table.get(name) {
            Some(s) => Ok(s.duplicate()),
            None => Err("Variable was not declared".to_owned()),
        }
    }

    /// Forgets the declared variables.
    pub fn update_state(&mut self) -> (r: Result<(), String>)
        ensures
            final(self).wf() == old(self).type_table.wf(),
            final(self).sym_table.symbols().len() == 0,
            final(self).type_table == old(self).type_table,
            r.is_ok(),
    {
        self.sym_table = SymbolTable::new();
        Ok(())
    }
}

impl Default for ParserState {
    fn default() -> (r: ParserState)
        ensures
            r.wf(),
            r.sym_table.symbols().len() == 0,
            r.type_table.entries().len() == 0,
    {
        ParserState::new()
    }
}

} // verus!
