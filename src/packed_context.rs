use vstd::prelude::*;

use crate::compact_temp_mapping::{self, TempMapping, compact_mapping, plain_mapping};
use crate::initial_context::{Context, Type, MAX_LOCAL_TYPES, MAX_TEMP_TYPES};
use vstd::array::{spec_array_fill_for_copy_type, spec_array_update};

verus! {

/// One deviation of a context from the empty context. The payload of every
/// variant fits in two bytes, so a mapping gets one variant per temporary.
#[derive(Copy, Clone, PartialEq, Eq, Structural, Debug, Hash)]
pub enum ContextDelta {
    /// Ends a delta list.
    Terminator,
    /// Stack size and stack-pointer offset, both small.
    SmallStack(u8, i8),
    ChainDepth(u8),
    /// Index and type of a local variable.
    LocalType(u8, Type),
    /// Index and type of a temporary.
    TempType(u8, Type),
    SelfType(Type),
    TempMapping0(TempMapping),
    TempMapping1(TempMapping),
    TempMapping2(TempMapping),
    TempMapping3(TempMapping),
    TempMapping4(TempMapping),
    TempMapping5(TempMapping),
    TempMapping6(TempMapping),
    TempMapping7(TempMapping),
}

/// A context as its list of deltas.
pub type PackedContext = Vec<ContextDelta>;

/// Why a context cannot be packed.
#[derive(Copy, Clone, PartialEq, Eq, Structural, Debug)]
pub enum PackError {
    /// The stack size or the stack-pointer offset does not fit in the one
    /// byte that the delta gives it.
    UnsupportedValue,
}

/// Tells whether two delta lists are equal.
pub fn same_deltas(a: &[ContextDelta], b: &[ContextDelta]) -> (r: bool)
    ensures
        r == (a@ == b@),
{
    if a.len() != b.len() {
        return false;
    }
    let mut i: usize = 0;
    while i < a.len()
        invariant
            i <= a@.len(),
            a@.len() == b@.len(),
            forall|j: int| 0 <= j < i ==> a@[j] == b@[j],
        decreases a@.len() - i,
    {
        if a[i] != b[i] {
            return false;
        }
        i = i + 1;
    }
    assert(a@ =~= b@);
    true
}

/// The stack size and offset fit the small stack delta.
pub open spec fn fits_small(c: Context) -> bool {
    c.stack_size <= 255 && -128 <= c.sp_offset <= 127
}

/// The delta that gives temporary `i` the mapping `m`.
pub open spec fn mapping_delta(i: int, m: TempMapping) -> ContextDelta {
    if i == 0 {
        ContextDelta::TempMapping0(m)
    } else if i == 1 {
        ContextDelta::TempMapping1(m)
    } else if i == 2 {
        ContextDelta::TempMapping2(m)
    } else if i == 3 {
        ContextDelta::TempMapping3(m)
    } else if i == 4 {
        ContextDelta::TempMapping4(m)
    } else if i == 5 {
        ContextDelta::TempMapping5(m)
    } else if i == 6 {
        ContextDelta::TempMapping6(m)
    } else {
        ContextDelta::TempMapping7(m)
    }
}

/// Deltas for the first `n` local types that are not `Unknown`, in index order.
pub open spec fn local_deltas(types: Seq<Type>, n: nat) -> Seq<ContextDelta>
    decreases n,
{
    if n == 0 {
        seq![]
    } else {
        let i = (n - 1) as nat;
        local_deltas(types, i) + if types[i as int] != Type::Unknown {
            seq![ContextDelta::LocalType(i as u8, types[i as int])]
        } else {
            seq![]
        }
    }
}

/// Deltas for the first `n` temporary types that are not `Unknown`, in index order.
pub open spec fn temp_deltas(types: Seq<Type>, n: nat) -> Seq<ContextDelta>
    decreases n,
{
    if n == 0 {
        seq![]
    } else {
        let i = (n - 1) as nat;
        temp_deltas(types, i) + if types[i as int] != Type::Unknown {
            seq![ContextDelta::TempType(i as u8, types[i as int])]
        } else {
            seq![]
        }
    }
}

/// Deltas for the first `n` mappings that are not `MapToStack`, in index order.
pub open spec fn mapping_deltas(
    maps: Seq<crate::initial_context::TempMapping>,
    n: nat,
) -> Seq<ContextDelta>
    decreases n,
{
    if n == 0 {
        seq![]
    } else {
        let i = (n - 1) as nat;
        mapping_deltas(maps, i) + if maps[i as int]
            != crate::initial_context::TempMapping::MapToStack {
            seq![mapping_delta(i as int, compact_mapping(maps[i as int]))]
        } else {
            seq![]
        }
    }
}

/// The packed form of a context: self type, chain depth, local types, temporary
/// types, mappings, then the stack, each only where it differs from the empty
/// context.
pub open spec fn packed_deltas(c: Context) -> Seq<ContextDelta> {
    (if c.self_type != Type::Unknown {
        seq![ContextDelta::SelfType(c.self_type)]
    } else {
        seq![]
    }) + (if c.chain_depth > 0 {
        seq![ContextDelta::ChainDepth(c.chain_depth)]
    } else {
        seq![]
    }) + local_deltas(c.local_types@, 8) + temp_deltas(c.temp_types@, 8) + mapping_deltas(
        c.temp_mapping@,
        8,
    ) + (if c.stack_size != 0 || c.sp_offset != 0 {
        seq![ContextDelta::SmallStack(c.stack_size as u8, c.sp_offset as i8)]
    } else {
        seq![]
    })
}

/// Packs a context into the list of its deviations from the empty context.
pub fn pack_context(ctx: &Context) -> (r: Result<PackedContext, PackError>)
    requires
        ctx.wf(),
    ensures
        match r {
            Ok(v) => fits_small(*ctx) && v@ == packed_deltas(*ctx),
            Err(e) => !fits_small(*ctx) && e == PackError::UnsupportedValue,
        },
{
    let compact = compact_temp_mapping::Context::from(ctx);
    let mut packed: Vec<ContextDelta> = Vec::new();
    if compact.self_type != Type::Unknown {
        packed.push(ContextDelta::SelfType(compact.self_type));
    }
    if compact.chain_depth > 0 {
        packed.push(ContextDelta::ChainDepth(compact.chain_depth));
    }
    let ghost head = packed@;
    let mut i: usize = 0;
    while i < 8
        invariant
            i <= 8,
            compact.local_types == ctx.local_types,
            packed@ == head + local_deltas(ctx.local_types@, i as nat),
        decreases 8 - i,
    {
        let t = compact.local_types[i];
        if t != Type::Unknown {
            packed.push(ContextDelta::LocalType(i as u8, t));
        }
        proof {
            assert(packed@ =~= head + local_deltas(ctx.local_types@, (i + 1) as nat));
        }
        i = i + 1;
    }
    let ghost head = packed@;
    let mut i: usize = 0;
    while i < 8
        invariant
            i <= 8,
            compact.temp_types == ctx.temp_types,
            packed@ == head + temp_deltas(ctx.temp_types@, i as nat),
        decreases 8 - i,
    {
        let t = compact.temp_types[i];
        if t != Type::Unknown {
            packed.push(ContextDelta::TempType(i as u8, t));
        }
        proof {
            assert(packed@ =~= head + temp_deltas(ctx.temp_types@, (i + 1) as nat));
        }
        i = i + 1;
    }
    let ghost head = packed@;
    let mut i: usize = 0;
    while i < 8
        invariant
            i <= 8,
            ctx.wf(),
            forall|j: int|
                0 <= j < 8 ==> #[trigger] compact.temp_mapping@[j] == compact_mapping(
                    ctx.temp_mapping@[j],
                ),
            packed@ == head + mapping_deltas(ctx.temp_mapping@, i as nat),
        decreases 8 - i,
    {
        let m = compact.temp_mapping[i];
        proof {
            compact_temp_mapping::lemma_mapping_round_trip(ctx.temp_mapping@[i as int]);
        }
        if m != TempMapping::MapToStack {
            let d = match i {
                0 => ContextDelta::TempMapping0(m),
                1 => ContextDelta::TempMapping1(m),
                2 => ContextDelta::TempMapping2(m),
                3 => ContextDelta::TempMapping3(m),
                4 => ContextDelta::TempMapping4(m),
                5 => ContextDelta::TempMapping5(m),
                6 => ContextDelta::TempMapping6(m),
                _ => ContextDelta::TempMapping7(m),
            };
            packed.push(d);
        }
        proof {
            assert(packed@ =~= head + mapping_deltas(ctx.temp_mapping@, (i + 1) as nat));
        }
        i = i + 1;
    }
    if compact.stack_size != 0 || compact.sp_offset != 0 {
        if compact.stack_size > 255 || compact.sp_offset < -128 || compact.sp_offset > 127 {
            return Err(PackError::UnsupportedValue);
        }
        packed.push(ContextDelta::SmallStack(compact.stack_size as u8, compact.sp_offset as i8));
    }
    assert(packed@ =~= packed_deltas(*ctx));
    Ok(packed)
}

/// The empty context, the baseline that deltas are taken against.
pub open spec fn empty_context() -> Context {
    Context {
        stack_size: 0,
        sp_offset: 0,
        chain_depth: 0,
        local_types: spec_array_fill_for_copy_type(Type::Unknown),
        temp_types: spec_array_fill_for_copy_type(Type::Unknown),
        self_type: Type::Unknown,
        temp_mapping: spec_array_fill_for_copy_type(crate::initial_context::TempMapping::MapToStack),
    }
}

/// `c` with temporary `i` mapped as `m` says.
pub open spec fn with_mapping(c: Context, i: int, m: TempMapping) -> Context {
    Context { temp_mapping: spec_array_update(c.temp_mapping, i, plain_mapping(m)), ..c }
}

/// `c` with the field that `d` names set as `d` says.
pub open spec fn apply_delta(c: Context, d: ContextDelta) -> Context {
    match d {
        ContextDelta::Terminator => c,
        ContextDelta::SmallStack(s, o) => Context { stack_size: s as u16, sp_offset: o as i16, ..c },
        ContextDelta::ChainDepth(x) => Context { chain_depth: x, ..c },
        ContextDelta::LocalType(i, t) => if i < MAX_LOCAL_TYPES {
            Context { local_types: spec_array_update(c.local_types, i as int, t), ..c }
        } else {
            c
        },
        ContextDelta::TempType(i, t) => if i < MAX_TEMP_TYPES {
            Context { temp_types: spec_array_update(c.temp_types, i as int, t), ..c }
        } else {
            c
        },
        ContextDelta::SelfType(t) => Context { self_type: t, ..c },
        ContextDelta::TempMapping0(m) => with_mapping(c, 0, m),
        ContextDelta::TempMapping1(m) => with_mapping(c, 1, m),
        ContextDelta::TempMapping2(m) => with_mapping(c, 2, m),
        ContextDelta::TempMapping3(m) => with_mapping(c, 3, m),
        ContextDelta::TempMapping4(m) => with_mapping(c, 4, m),
        ContextDelta::TempMapping5(m) => with_mapping(c, 5, m),
        ContextDelta::TempMapping6(m) => with_mapping(c, 6, m),
        ContextDelta::TempMapping7(m) => with_mapping(c, 7, m),
    }
}

/// `c` with the deltas of `s` applied in order.
pub open spec fn replay(c: Context, s: Seq<ContextDelta>) -> Context
    decreases s.len(),
{
    if s.len() == 0 {
        c
    } else {
        apply_delta(replay(c, s.drop_last()), s.last())
    }
}

/// The context that a delta list describes.
pub open spec fn unpacked(s: Seq<ContextDelta>) -> Context {
    replay(empty_context(), s)
}

/// A context that has every field at its default is the empty context.
pub proof fn lemma_is_empty(c: Context)
    requires
        c.is_empty(),
    ensures
        c == empty_context(),
{
    let e = empty_context();
    assert(c.local_types =~= e.local_types);
    assert(c.temp_types =~= e.temp_types);
    assert(c.temp_mapping =~= e.temp_mapping);
}

/// Applies one delta to a context.
pub fn apply(ctx: &mut Context, d: ContextDelta)
    ensures
        *final(ctx) == apply_delta(*old(ctx), d),
{
    let ghost c0 = *ctx;
    match d {
        ContextDelta::Terminator => {},
        ContextDelta::SmallStack(s, o) => {
            ctx.stack_size = s as u16;
            ctx.sp_offset = o as i16;
        },
        ContextDelta::ChainDepth(x) => {
            ctx.chain_depth = x;
        },
        ContextDelta::LocalType(i, t) => {
            if (i as usize) < MAX_LOCAL_TYPES {
                ctx.local_types[i as usize] = t;
                assert(ctx.local_types =~= spec_array_update(c0.local_types, i as int, t));
            }
        },
        ContextDelta::TempType(i, t) => {
            if (i as usize) < MAX_TEMP_TYPES {
                ctx.temp_types[i as usize] = t;
                assert(ctx.temp_types =~= spec_array_update(c0.temp_types, i as int, t));
            }
        },
        ContextDelta::SelfType(t) => {
            ctx.self_type = t;
        },
        ContextDelta::TempMapping0(m) => set_mapping(ctx, 0, m),
        ContextDelta::TempMapping1(m) => set_mapping(ctx, 1, m),
        ContextDelta::TempMapping2(m) => set_mapping(ctx, 2, m),
        ContextDelta::TempMapping3(m) => set_mapping(ctx, 3, m),
        ContextDelta::TempMapping4(m) => set_mapping(ctx, 4, m),
        ContextDelta::TempMapping5(m) => set_mapping(ctx, 5, m),
        ContextDelta::TempMapping6(m) => set_mapping(ctx, 6, m),
        ContextDelta::TempMapping7(m) => set_mapping(ctx, 7, m),
    }
}

fn set_mapping(ctx: &mut Context, i: usize, m: TempMapping)
    requires
        i < MAX_TEMP_TYPES,
    ensures
        *final(ctx) == with_mapping(*old(ctx), i as int, m),
{
    let ghost c0 = *ctx;
    ctx.temp_mapping[i] = m.to_plain();
    assert(ctx.temp_mapping =~= spec_array_update(c0.temp_mapping, i as int, plain_mapping(m)));
}

/// Rebuilds a context from its delta list by applying each delta to the
/// empty context.
pub fn unpack_context(deltas: &PackedContext) -> (r: Context)
    ensures
        r == unpacked(deltas@),
{
    let mut ctx = Context::default();
    proof {
        lemma_is_empty(ctx);
    }
    let mut i: usize = 0;
    while i < deltas.len()
        invariant
            i <= deltas@.len(),
            ctx == replay(empty_context(), deltas@.take(i as int)),
        decreases deltas@.len() - i,
    {
        apply(&mut ctx, deltas[i]);
        assert(deltas@.take(i + 1).drop_last() =~= deltas@.take(i as int));
        i = i + 1;
    }
    assert(deltas@.take(deltas@.len() as int) =~= deltas@);
    ctx
}

/// Replaying `a + b` is replaying `a`, then `b`.
pub proof fn lemma_replay_append(c: Context, a: Seq<ContextDelta>, b: Seq<ContextDelta>)
    ensures
        replay(c, a + b) == replay(replay(c, a), b),
    decreases b.len(),
{
    if b.len() == 0 {
        assert(a + b =~= a);
    } else {
        assert((a + b).drop_last() =~= a + b.drop_last());
        lemma_replay_append(c, a, b.drop_last());
    }
}

/// Replaying a single delta applies it.
pub proof fn lemma_replay_one(c: Context, d: ContextDelta)
    ensures
        replay(c, seq![d]) == apply_delta(c, d),
{
    assert(seq![d].drop_last() =~= Seq::<ContextDelta>::empty());
    assert(replay(c, Seq::<ContextDelta>::empty()) == c);
}

proof fn lemma_replay_locals(c: Context, types: Seq<Type>, n: nat)
    requires
        n <= MAX_LOCAL_TYPES,
        types.len() == MAX_LOCAL_TYPES,
    ensures
        ({
            let r = replay(c, local_deltas(types, n));
            &&& r == Context { local_types: r.local_types, ..c }
            &&& forall|j: int|
                0 <= j < MAX_LOCAL_TYPES ==> #[trigger] r.local_types@[j] == if j < n
                    && types[j] != Type::Unknown {
                    types[j]
                } else {
                    c.local_types@[j]
                }
        }),
    decreases n,
{
    if n > 0 {
        let i = (n - 1) as nat;
        lemma_replay_locals(c, types, i);
        let tail = if types[i as int] != Type::Unknown {
            seq![ContextDelta::LocalType(i as u8, types[i as int])]
        } else {
            seq![]
        };
        lemma_replay_append(c, local_deltas(types, i), tail);
        if types[i as int] != Type::Unknown {
            lemma_replay_one(replay(c, local_deltas(types, i)), ContextDelta::LocalType(i as u8, types[i as int]));
        } else {
            assert(replay(replay(c, local_deltas(types, i)), tail) == replay(c, local_deltas(types, i)));
        }
    }
}

proof fn lemma_replay_temps(c: Context, types: Seq<Type>, n: nat)
    requires
        n <= MAX_TEMP_TYPES,
        types.len() == MAX_TEMP_TYPES,
    ensures
        ({
            let r = replay(c, temp_deltas(types, n));
            &&& r == Context { temp_types: r.temp_types, ..c }
            &&& forall|j: int|
                0 <= j < MAX_TEMP_TYPES ==> #[trigger] r.temp_types@[j] == if j < n
                    && types[j] != Type::Unknown {
                    types[j]
                } else {
                    c.temp_types@[j]
                }
        }),
    decreases n,
{
    if n > 0 {
        let i = (n - 1) as nat;
        lemma_replay_temps(c, types, i);
        let tail = if types[i as int] != Type::Unknown {
            seq![ContextDelta::TempType(i as u8, types[i as int])]
        } else {
            seq![]
        };
        lemma_replay_append(c, temp_deltas(types, i), tail);
        if types[i as int] != Type::Unknown {
            lemma_replay_one(replay(c, temp_deltas(types, i)), ContextDelta::TempType(i as u8, types[i as int]));
        } else {
            assert(replay(replay(c, temp_deltas(types, i)), tail) == replay(c, temp_deltas(types, i)));
        }
    }
}

proof fn lemma_replay_mappings(c: Context, maps: Seq<crate::initial_context::TempMapping>, n: nat)
    requires
        n <= MAX_TEMP_TYPES,
        maps.len() == MAX_TEMP_TYPES,
        forall|j: int| 0 <= j < MAX_TEMP_TYPES ==> (#[trigger] maps[j]).wf(),
    ensures
        ({
            let r = replay(c, mapping_deltas(maps, n));
            &&& r == Context { temp_mapping: r.temp_mapping, ..c }
            &&& forall|j: int|
                0 <= j < MAX_TEMP_TYPES ==> #[trigger] r.temp_mapping@[j] == if j < n
                    && maps[j] != crate::initial_context::TempMapping::MapToStack {
                    maps[j]
                } else {
                    c.temp_mapping@[j]
                }
        }),
    decreases n,
{
    if n > 0 {
        let i = (n - 1) as nat;
        lemma_replay_mappings(c, maps, i);
        compact_temp_mapping::lemma_mapping_round_trip(maps[i as int]);
        let tail = if maps[i as int] != crate::initial_context::TempMapping::MapToStack {
            seq![mapping_delta(i as int, compact_mapping(maps[i as int]))]
        } else {
            seq![]
        };
        lemma_replay_append(c, mapping_deltas(maps, i), tail);
        if maps[i as int] != crate::initial_context::TempMapping::MapToStack {
            lemma_replay_one(replay(c, mapping_deltas(maps, i)), mapping_delta(i as int, compact_mapping(maps[i as int])));
        } else {
            assert(replay(replay(c, mapping_deltas(maps, i)), tail) == replay(c, mapping_deltas(maps, i)));
        }
    }
}

/// Unpacking the packed form of a context gives the context back, for every
/// context whose stack fits the small stack delta (the others do not pack).
pub proof fn lemma_round_trip(c: Context)
    requires
        c.wf(),
        fits_small(c),
    ensures
        unpacked(packed_deltas(c)) == c,
{
    let e = empty_context();
    let s0 = if c.self_type != Type::Unknown {
        seq![ContextDelta::SelfType(c.self_type)]
    } else {
        seq![]
    };
    let s1 = if c.chain_depth > 0 {
        seq![ContextDelta::ChainDepth(c.chain_depth)]
    } else {
        seq![]
    };
    let s2 = local_deltas(c.local_types@, 8);
    let s3 = temp_deltas(c.temp_types@, 8);
    let s4 = mapping_deltas(c.temp_mapping@, 8);
    let s5 = if c.stack_size != 0 || c.sp_offset != 0 {
        seq![ContextDelta::SmallStack(c.stack_size as u8, c.sp_offset as i8)]
    } else {
        seq![]
    };
    lemma_replay_append(e, s0 + s1 + s2 + s3 + s4, s5);
    lemma_replay_append(e, s0 + s1 + s2 + s3, s4);
    lemma_replay_append(e, s0 + s1 + s2, s3);
    lemma_replay_append(e, s0 + s1, s2);
    lemma_replay_append(e, s0, s1);
    if c.self_type != Type::Unknown {
        lemma_replay_one(e, ContextDelta::SelfType(c.self_type));
    }
    let r0 = replay(e, s0);
    if c.chain_depth > 0 {
        lemma_replay_one(r0, ContextDelta::ChainDepth(c.chain_depth));
    }
    let r1 = replay(e, s0 + s1);
    assert(r1.self_type == c.self_type);
    assert(r1.chain_depth == c.chain_depth);
    lemma_replay_locals(r1, c.local_types@, 8);
    let r2 = replay(r1, s2);
    lemma_replay_temps(r2, c.temp_types@, 8);
    let r3 = replay(r2, s3);
    lemma_replay_mappings(r3, c.temp_mapping@, 8);
    let r4 = replay(r3, s4);
    if c.stack_size != 0 || c.sp_offset != 0 {
        lemma_replay_one(r4, ContextDelta::SmallStack(c.stack_size as u8, c.sp_offset as i8));
    }
    let r = replay(r4, s5);
    assert(r.local_types =~= c.local_types);
    assert(r.temp_types =~= c.temp_types);
    assert(r.temp_mapping =~= c.temp_mapping);
}

proof fn lemma_no_locals(types: Seq<Type>, n: nat)
    requires
        n <= types.len(),
        forall|j: int| 0 <= j < types.len() ==> types[j] == Type::Unknown,
    ensures
        local_deltas(types, n) == Seq::<ContextDelta>::empty(),
    decreases n,
{
    if n > 0 {
        lemma_no_locals(types, (n - 1) as nat);
        assert(local_deltas(types, n) =~= Seq::<ContextDelta>::empty());
    }
}

proof fn lemma_no_temps(types: Seq<Type>, n: nat)
    requires
        n <= types.len(),
        forall|j: int| 0 <= j < types.len() ==> types[j] == Type::Unknown,
    ensures
        temp_deltas(types, n) == Seq::<ContextDelta>::empty(),
    decreases n,
{
    if n > 0 {
        lemma_no_temps(types, (n - 1) as nat);
        assert(temp_deltas(types, n) =~= Seq::<ContextDelta>::empty());
    }
}

proof fn lemma_no_mappings(maps: Seq<crate::initial_context::TempMapping>, n: nat)
    requires
        n <= maps.len(),
        forall|j: int|
            0 <= j < maps.len() ==> maps[j] == crate::initial_context::TempMapping::MapToStack,
    ensures
        mapping_deltas(maps, n) == Seq::<ContextDelta>::empty(),
    decreases n,
{
    if n > 0 {
        lemma_no_mappings(maps, (n - 1) as nat);
        assert(mapping_deltas(maps, n) =~= Seq::<ContextDelta>::empty());
    }
}

/// The empty context packs to the empty delta list.
pub proof fn lemma_pack_empty(c: Context)
    requires
        c.is_empty(),
    ensures
        packed_deltas(c) == Seq::<ContextDelta>::empty(),
        fits_small(c),
{
    lemma_no_locals(c.local_types@, 8);
    lemma_no_temps(c.temp_types@, 8);
    lemma_no_mappings(c.temp_mapping@, 8);
    assert(packed_deltas(c) =~= Seq::<ContextDelta>::empty());
}

} // verus!
