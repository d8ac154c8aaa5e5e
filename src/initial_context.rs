use vstd::prelude::*;

verus! {

/// Number of temporary value types that a context tracks.
pub const MAX_TEMP_TYPES: usize = 8;

/// Number of local variable types that a context tracks.
pub const MAX_LOCAL_TYPES: usize = 8;

/// What is known about the runtime type of a value (local, temporary or self).
#[derive(Copy, Clone, PartialEq, Eq, Structural, Debug, Hash)]
pub enum Type {
    Unknown,
    UnknownImm,
    UnknownHeap,
    Nil,
    True,
    False,
    Fixnum,
    Flonum,
    Hash,
    ImmSymbol,
    HeapSymbol,
    /// An object with the T_STRING flag set, possibly an rb_cString.
    TString,
    /// An un-subclassed string of type rb_cString.
    CString,
    /// An object with the T_ARRAY flag set, possibly an rb_cArray.
    TArray,
    /// An un-subclassed array of type rb_cArray.
    CArray,
    /// Sentinel: the block parameter is read from the surrounding frame.
    BlockParamProxy,
}

impl Default for Type {
    fn default() -> (r: Self)
        ensures
            r == Type::Unknown,
    {
        Type::Unknown
    }
}

/// What a value on the temporary stack is an alias of.
#[derive(Copy, Clone, PartialEq, Eq, Structural, Debug, Hash)]
pub enum TempMapping {
    /// A plain stack value.
    MapToStack,
    /// The temporary holds the self operand.
    MapToSelf,
    /// The temporary holds the local variable with this index.
    MapToLocal(u8),
}

impl Default for TempMapping {
    fn default() -> (r: Self)
        ensures
            r == TempMapping::MapToStack,
    {
        TempMapping::MapToStack
    }
}

impl TempMapping {
    /// A mapping is valid when a local index names one of the tracked locals.
    pub open spec fn wf(self) -> bool {
        match self {
            TempMapping::MapToLocal(i) => i < MAX_LOCAL_TYPES,
            _ => true,
        }
    }
}

/// Code generation context: what is known at a program point, used to
/// specialise the generated code.
#[derive(Copy, Clone, Debug, Hash)]
pub struct Context {
    /// Number of values currently on the temporary stack.
    pub stack_size: u16,
    /// Offset of the JIT stack pointer relative to the interpreter's.
    pub sp_offset: i16,
    /// Depth of this block in the side chain.
    pub chain_depth: u8,
    /// Types of the tracked local variables.
    pub local_types: [Type; 8],
    /// Types of the tracked temporaries.
    pub temp_types: [Type; 8],
    /// Type of self.
    pub self_type: Type,
    /// What each tracked temporary is an alias of.
    pub temp_mapping: [TempMapping; 8],
}

impl Context {
    /// Every local index in the temporary mappings is in range.
    pub open spec fn wf(&self) -> bool {
        forall|i: int| 0 <= i < MAX_TEMP_TYPES ==> (#[trigger] self.temp_mapping@[i]).wf()
    }

    /// The empty context: the baseline that deltas are taken against.
    pub open spec fn is_empty(&self) -> bool {
        &&& self.stack_size == 0
        &&& self.sp_offset == 0
        &&& self.chain_depth == 0
        &&& self.self_type == Type::Unknown
        &&& forall|i: int| 0 <= i < MAX_LOCAL_TYPES ==> #[trigger] self.local_types@[i] == Type::Unknown
        &&& forall|i: int| 0 <= i < MAX_TEMP_TYPES ==> #[trigger] self.temp_types@[i] == Type::Unknown
        &&& forall|i: int| 0 <= i < MAX_TEMP_TYPES ==> #[trigger] self.temp_mapping@[i] == TempMapping::MapToStack
    }

    /// Tells whether every local index in the temporary mappings is in range,
    /// as a decoder of outside records must check.
    pub fn is_valid(&self) -> (r: bool)
        ensures
            r == self.wf(),
    {
        let mut i: usize = 0;
        while i < MAX_TEMP_TYPES
            invariant
                i <= MAX_TEMP_TYPES,
                forall|j: int| 0 <= j < i ==> (#[trigger] self.temp_mapping@[j]).wf(),
            decreases MAX_TEMP_TYPES - i,
        {
            if let TempMapping::MapToLocal(l) = self.temp_mapping[i] {
                if l as usize >= MAX_LOCAL_TYPES {
                    return false;
                }
            }
            i = i + 1;
        }
        true
    }
}

/// Tells whether two arrays of types hold the same values.
pub fn same_types(a: &[Type; 8], b: &[Type; 8]) -> (r: bool)
    ensures
        r == (*a == *b),
{
    let mut i: usize = 0;
    while i < 8
        invariant
            i <= 8,
            forall|j: int| 0 <= j < i ==> a@[j] == b@[j],
        decreases 8 - i,
    {
        if a[i] != b[i] {
            assert(a@ != b@);
            return false;
        }
        i = i + 1;
    }
    assert(*a =~= *b);
    true
}

/// Tells whether two arrays of temporary mappings hold the same values.
pub fn same_mappings(a: &[TempMapping; 8], b: &[TempMapping; 8]) -> (r: bool)
    ensures
        r == (*a == *b),
{
    let mut i: usize = 0;
    while i < 8
        invariant
            i <= 8,
            forall|j: int| 0 <= j < i ==> a@[j] == b@[j],
        decreases 8 - i,
    {
        if a[i] != b[i] {
            assert(a@ != b@);
            return false;
        }
        i = i + 1;
    }
    assert(*a =~= *b);
    true
}

impl PartialEq for Context {
    fn eq(&self, other: &Context) -> (r: bool) {
        self.stack_size == other.stack_size && self.sp_offset == other.sp_offset
            && self.chain_depth == other.chain_depth && self.self_type == other.self_type
            && same_types(&self.local_types, &other.local_types) && same_types(
            &self.temp_types,
            &other.temp_types,
        ) && same_mappings(&self.temp_mapping, &other.temp_mapping)
    }
}

impl vstd::std_specs::cmp::PartialEqSpecImpl for Context {
    open spec fn obeys_eq_spec() -> bool {
        true
    }

    open spec fn eq_spec(&self, other: &Context) -> bool {
        *self == *other
    }
}

impl Eq for Context {

}

impl Default for Context {
    fn default() -> (r: Self)
        ensures
            r.is_empty(),
            r.wf(),
    {
        Context {
            stack_size: 0,
            sp_offset: 0,
            chain_depth: 0,
            local_types: [Type::Unknown; 8],
            temp_types: [Type::Unknown; 8],
            self_type: Type::Unknown,
            temp_mapping: [TempMapping::MapToStack; 8],
        }
    }
}

/// One record of a workload: a context and how many times it was observed.
#[derive(Copy, Clone, Debug)]
pub struct ContextWithCount {
    pub context: Context,
    pub count: u64,
}

} // verus!
