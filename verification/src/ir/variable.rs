//! Variables of a function in single-assignment form.
use crate::target::Target;
use vstd::prelude::*;

verus! {

/// Identifies a variable by its position in the function's variable table.
#[derive(Debug, Clone, Copy, PartialEq, Eq, PartialOrd, Ord, Hash, Structural)]
pub struct SsaVarId(pub usize);

impl SsaVarId {
    /// Creates the identifier of the variable at `index`.
    #[must_use]
    pub fn from_index(index: usize) -> (r: Self)
        ensures
            r == SsaVarId(index),
    {
        SsaVarId(index)
    }

    /// Returns the position of the variable in the variable table.
    #[must_use]
    pub fn index(self) -> (r: usize)
        ensures
            r == self.0,
    {
        self.0
    }
}

/// Where the value of a variable comes from in the source program.
#[derive(Debug, Clone, Copy, PartialEq, Eq, PartialOrd, Ord, Hash, Structural)]
pub enum VariableOrigin {
    /// A method argument.
    Argument(u16),
    /// A local variable.
    Local(u16),
    /// A merge of other variables.
    Phi,
    /// An intermediate value without a source-level name.
    Temp,
}

impl VariableOrigin {
    /// The origin names an argument or a local variable.
    pub open spec fn is_named(self) -> bool {
        self is Argument || self is Local
    }

    /// Returns `true` if the origin names an argument or a local variable.
    #[must_use]
    pub fn names_slot(self) -> (r: bool)
        ensures
            r == self.is_named(),
    {
        match self {
            VariableOrigin::Argument(_) => true,
            VariableOrigin::Local(_) => true,
            _ => false,
        }
    }
}

/// Where a variable is defined.
#[derive(Debug, Clone, Copy, PartialEq, Eq, Hash, Structural)]
pub struct DefSite {
    /// Block that holds the definition.
    pub block: usize,
    /// Index of the defining instruction, or `None` for a phi node.
    pub instruction: Option<usize>,
}

impl DefSite {
    /// Definition by the instruction at `instruction` of `block`.
    #[must_use]
    pub fn instruction(block: usize, instruction: usize) -> (r: Self)
        ensures
            r == (DefSite { block, instruction: Some(instruction) }),
    {
        DefSite { block, instruction: Some(instruction) }
    }

    /// Definition by a phi node of `block`.
    #[must_use]
    pub fn phi(block: usize) -> (r: Self)
        ensures
            r == (DefSite { block, instruction: None }),
    {
        DefSite { block, instruction: None }
    }
}

/// Where a variable is read.
#[derive(Debug, Clone, Copy, PartialEq, Eq, Hash, Structural)]
pub struct UseSite {
    /// Block that holds the use.
    pub block: usize,
    /// Index of the reading instruction, or of the reading phi node.
    pub instruction: usize,
    /// Whether the reader is a phi node.
    pub is_phi_operand: bool,
}

/// The origin and the type of a variable to be defined.
pub struct SsaDefSpec<T: Target> {
    pub origin: VariableOrigin,
    pub var_type: T::Type,
}

impl<T: Target> SsaDefSpec<T> {
    /// An intermediate value of type `var_type`.
    #[must_use]
    pub fn tmp(var_type: T::Type) -> (r: Self)
        ensures
            r == (SsaDefSpec::<T> { origin: VariableOrigin::Temp, var_type }),
    {
        SsaDefSpec { origin: VariableOrigin::Temp, var_type }
    }

    /// The local variable `index`, of type `var_type`.
    #[must_use]
    pub fn local(index: u16, var_type: T::Type) -> (r: Self)
        ensures
            r == (SsaDefSpec::<T> { origin: VariableOrigin::Local(index), var_type }),
    {
        SsaDefSpec { origin: VariableOrigin::Local(index), var_type }
    }
}

/// One variable: its identity, its origin, its definition and its recorded uses.
///
/// An identifier is never given out twice: the slot of a variable that has left the table stays,
/// marked as orphaned.
pub struct SsaVariable<T: Target> {
    pub id: SsaVarId,
    pub origin: VariableOrigin,
    pub version: u32,
    pub def_site: DefSite,
    pub var_type: T::Type,
    pub uses: Vec<UseSite>,
    /// Whether the variable has left the table, as nothing assigns or reads it.
    pub orphan: bool,
}

/// What a variable holds, as a mathematical value.
#[verifier::ext_equal]
pub struct VarView<T: Target> {
    pub id: SsaVarId,
    pub origin: VariableOrigin,
    pub version: u32,
    pub def_site: DefSite,
    pub var_type: T::Type,
    pub uses: Seq<UseSite>,
    pub orphan: bool,
}

impl<T: Target> View for SsaVariable<T> {
    type V = VarView<T>;

    open spec fn view(&self) -> VarView<T> {
        VarView {
            id: self.id,
            origin: self.origin,
            version: self.version,
            def_site: self.def_site,
            var_type: self.var_type,
            uses: self.uses@,
            orphan: self.orphan,
        }
    }
}

impl<T: Target> SsaVariable<T> {
    /// Returns the identifier of the variable.
    #[must_use]
    pub fn id(&self) -> (r: SsaVarId)
        ensures
            r == self@.id,
    {
        self.id
    }

    /// Returns where the value comes from.
    #[must_use]
    pub fn origin(&self) -> (r: VariableOrigin)
        ensures
            r == self@.origin,
    {
        self.origin
    }

    /// Returns where the variable is defined.
    #[must_use]
    pub fn def_site(&self) -> (r: DefSite)
        ensures
            r == self@.def_site,
    {
        self.def_site
    }

    /// Returns the recorded uses of the variable.
    #[must_use]
    pub fn uses(&self) -> (r: &Vec<UseSite>)
        ensures
            r@ == self@.uses,
    {
        &self.uses
    }

    /// Returns an equal variable.
    #[must_use]
    pub fn duplicate(&self) -> (r: Self)
        ensures
            r@ == self@,
    {
        let mut uses: Vec<UseSite> = Vec::new();
        let mut i: usize = 0;
        while i < self.uses.len()
            invariant
                i <= self.uses@.len(),
                uses@ == self.uses@.take(i as int),
            decreases self.uses@.len() - i,
        {
            uses.push(self.uses[i]);
            i = i + 1;
        }
        assert(uses@ =~= self.uses@);
        SsaVariable {
            id: self.id,
            origin: self.origin,
            version: self.version,
            def_site: self.def_site,
            var_type: self.var_type,
            uses,
            orphan: self.orphan,
        }
    }
}

} // verus!
