use vstd::prelude::*;

use crate::initial_context::{self, Type, MAX_LOCAL_TYPES, MAX_TEMP_TYPES, same_types};

verus! {

/// Index of a tracked local variable, as an enum so that it packs in one byte
/// alongside a mapping tag.
#[derive(Copy, Clone, PartialEq, Eq, Structural, Debug, Hash)]
pub enum LocalIndex {
    Local0,
    Local1,
    Local2,
    Local3,
    Local4,
    Local5,
    Local6,
    Local7,
}

/// The numeric index that a local index stands for.
pub open spec fn index_value(l: LocalIndex) -> u8 {
    match l {
        LocalIndex::Local0 => 0,
        LocalIndex::Local1 => 1,
        LocalIndex::Local2 => 2,
        LocalIndex::Local3 => 3,
        LocalIndex::Local4 => 4,
        LocalIndex::Local5 => 5,
        LocalIndex::Local6 => 6,
        LocalIndex::Local7 => 7,
    }
}

impl LocalIndex {
    /// The local index for a number below the count of tracked locals.
    pub fn from_index(i: u8) -> (r: LocalIndex)
        requires
            i < MAX_LOCAL_TYPES,
        ensures
            index_value(r) == i,
    {
        match i {
            0 => LocalIndex::Local0,
            1 => LocalIndex::Local1,
            2 => LocalIndex::Local2,
            3 => LocalIndex::Local3,
            4 => LocalIndex::Local4,
            5 => LocalIndex::Local5,
            6 => LocalIndex::Local6,
            _ => LocalIndex::Local7,
        }
    }

    /// The number that this local index stands for.
    pub fn index(self) -> (r: u8)
        ensures
            r == index_value(self),
            r < MAX_LOCAL_TYPES,
    {
        match self {
            LocalIndex::Local0 => 0,
            LocalIndex::Local1 => 1,
            LocalIndex::Local2 => 2,
            LocalIndex::Local3 => 3,
            LocalIndex::Local4 => 4,
            LocalIndex::Local5 => 5,
            LocalIndex::Local6 => 6,
            LocalIndex::Local7 => 7,
        }
    }
}

/// What a value on the temporary stack is an alias of, with the local index
/// held as a `LocalIndex`.
#[derive(Copy, Clone, PartialEq, Eq, Structural, Debug, Hash)]
pub enum TempMapping {
    /// A plain stack value.
    MapToStack,
    /// The temporary holds the self operand.
    MapToSelf,
    /// The temporary holds the local variable with this index.
    MapToLocal(LocalIndex),
}

impl Default for TempMapping {
    fn default() -> (r: Self)
        ensures
            r == TempMapping::MapToStack,
    {
        TempMapping::MapToStack
    }
}

/// The compact form of a mapping of the plain context.
pub open spec fn compact_mapping(m: initial_context::TempMapping) -> TempMapping {
    match m {
        initial_context::TempMapping::MapToStack => TempMapping::MapToStack,
        initial_context::TempMapping::MapToSelf => TempMapping::MapToSelf,
        initial_context::TempMapping::MapToLocal(i) => TempMapping::MapToLocal(
            choose|l: LocalIndex| index_value(l) == i,
        ),
    }
}

/// The plain form of a compact mapping.
pub open spec fn plain_mapping(m: TempMapping) -> initial_context::TempMapping {
    match m {
        TempMapping::MapToStack => initial_context::TempMapping::MapToStack,
        TempMapping::MapToSelf => initial_context::TempMapping::MapToSelf,
        TempMapping::MapToLocal(l) => initial_context::TempMapping::MapToLocal(index_value(l)),
    }
}

/// Converting a valid plain mapping to the compact form and back gives it again.
pub proof fn lemma_mapping_round_trip(m: initial_context::TempMapping)
    requires
        m.wf(),
    ensures
        plain_mapping(compact_mapping(m)) == m,
        compact_mapping(m) == TempMapping::MapToStack <==> m == initial_context::TempMapping::MapToStack,
{
    if let initial_context::TempMapping::MapToLocal(i) = m {
        let w = match i {
            0 => LocalIndex::Local0,
            1 => LocalIndex::Local1,
            2 => LocalIndex::Local2,
            3 => LocalIndex::Local3,
            4 => LocalIndex::Local4,
            5 => LocalIndex::Local5,
            6 => LocalIndex::Local6,
            _ => LocalIndex::Local7,
        };
        assert(index_value(w) == i);
    }
}

impl TempMapping {
    /// The compact form of a valid plain mapping.
    pub fn from_plain(m: initial_context::TempMapping) -> (r: TempMapping)
        requires
            m.wf(),
        ensures
            r == compact_mapping(m),
    {
        proof {
            lemma_mapping_round_trip(m);
        }
        match m {
            initial_context::TempMapping::MapToStack => TempMapping::MapToStack,
            initial_context::TempMapping::MapToSelf => TempMapping::MapToSelf,
            initial_context::TempMapping::MapToLocal(i) => {
                let l = LocalIndex::from_index(i);
                proof {
                    let c = choose|l: LocalIndex| index_value(l) == i;
                    assert(index_value(c) == index_value(l));
                }
                TempMapping::MapToLocal(l)
            },
        }
    }

    /// The plain form of this mapping.
    pub fn to_plain(self) -> (r: initial_context::TempMapping)
        ensures
            r == plain_mapping(self),
            r.wf(),
    {
        match self {
            TempMapping::MapToStack => initial_context::TempMapping::MapToStack,
            TempMapping::MapToSelf => initial_context::TempMapping::MapToSelf,
            TempMapping::MapToLocal(l) => initial_context::TempMapping::MapToLocal(l.index()),
        }
    }
}

/// Code generation context with compact temporary mappings.
#[derive(Copy, Clone, Debug, Hash)]
pub struct Context {
    /// Number of values currently on the temporary stack.
    pub stack_size: u16,
    /// Offset of the JIT stack pointer relative to the interpreter's.
    pub sp_offset: i16,
    /// Depth of this block in the side chain.
    pub chain_depth: u8,
    /// Types of the tracked local variables.
    pub local_types: [Type; 8],
    /// Types of the tracked temporaries.
    pub temp_types: [Type; 8],
    /// Type of self.
    pub self_type: Type,
    /// What each tracked temporary is an alias of.
    pub temp_mapping: [TempMapping; 8],
}


/// `x` is the compact form of `c`: every field kept, each mapping made compact.
pub open spec fn is_compact_of(x: Context, c: initial_context::Context) -> bool {
    &&& x.stack_size == c.stack_size
    &&& x.sp_offset == c.sp_offset
    &&& x.chain_depth == c.chain_depth
    &&& x.local_types == c.local_types
    &&& x.temp_types == c.temp_types
    &&& x.self_type == c.self_type
    &&& forall|i: int|
        0 <= i < MAX_TEMP_TYPES ==> #[trigger] x.temp_mapping@[i] == compact_mapping(
            c.temp_mapping@[i],
        )
}

/// Tells whether two arrays of compact mappings hold the same values.
pub fn same_mappings(a: &[TempMapping; 8], b: &[TempMapping; 8]) -> (r: bool)
    ensures
        r == (*a == *b),
{
    let mut i: usize = 0;
    while i < 8
        invariant
            i <= 8,
            forall|j: int| 0 <= j < i ==> a@[j] == b@[j],
        decreases 8 - i,
    {
        if a[i] != b[i] {
            assert(a@ != b@);
            return false;
        }
        i = i + 1;
    }
    assert(*a =~= *b);
    true
}

impl PartialEq for Context {
    fn eq(&self, other: &Context) -> (r: bool) {
        self.stack_size == other.stack_size && self.sp_offset == other.sp_offset
            && self.chain_depth == other.chain_depth && self.self_type == other.self_type
            && same_types(&self.local_types, &other.local_types) && same_types(
            &self.temp_types,
            &other.temp_types,
        ) && same_mappings(&self.temp_mapping, &other.temp_mapping)
    }
}

impl vstd::std_specs::cmp::PartialEqSpecImpl for Context {
    open spec fn obeys_eq_spec() -> bool {
        true
    }

    open spec fn eq_spec(&self, other: &Context) -> bool {
        *self == *other
    }
}

impl Eq for Context {

}

impl Context {
    /// The compact context that holds the same information as `value`.
    pub fn from(value: &initial_context::Context) -> (r: Context)
        requires
            value.wf(),
        ensures
            is_compact_of(r, *value),
    {
        let mut temp_mapping = [TempMapping::MapToStack;8];
        let mut i: usize = 0;
        while i < MAX_TEMP_TYPES
            invariant
                i <= MAX_TEMP_TYPES,
                value.wf(),
                forall|j: int|
                    0 <= j < i ==> #[trigger] temp_mapping@[j] == compact_mapping(
                        value.temp_mapping@[j],
                    ),
            decreases MAX_TEMP_TYPES - i,
        {
            assert(value.temp_mapping@[i as int].wf());
            temp_mapping[i] = TempMapping::from_plain(value.temp_mapping[i]);
            i = i + 1;
        }
        Context {
            stack_size: value.stack_size,
            sp_offset: value.sp_offset,
            chain_depth: value.chain_depth,
            local_types: value.local_types,
            temp_types: value.temp_types,
            self_type: value.self_type,
            temp_mapping,
        }
    }
}

} // verus!
