//! Context flags: the small bit-set that says how a package is used, and the
//! classification of a dependency edge into such a set.

use vstd::prelude::*;
use crate::text::str_eq;

verus! {

/// The child is a direct dependency of a workspace member.
pub const FLAG_DIRECT: u8 = 0b0000_0001;

/// The package is only there when optional features are enabled.
pub const FLAG_OPTIONAL: u8 = 0b0000_0010;

/// The edge applies whatever the target.
pub const FLAG_TARGET_ANY: u8 = 0b0000_0100;

/// The edge applies under a target condition only.
pub const FLAG_TARGET_CFG: u8 = 0b0000_1000;

/// The child is needed at runtime.
pub const FLAG_CTX_NORMAL: u8 = 0b0001_0000;

/// The child is needed to build.
pub const FLAG_CTX_BUILD: u8 = 0b0010_0000;

/// Both kind bits.
pub const MASK_CTX: u8 = 0b0011_0000;

/// Both target bits.
pub const MASK_TARGET: u8 = 0b0000_1100;

/// Every bit an edge can carry once it is classified.
pub const MASK_EDGE: u8 = 0b0011_1100;

/// Whether every bit of `mask` is set in `flags`.
pub open spec fn carries(flags: u8, mask: u8) -> bool {
    flags & mask == mask
}

/// Whether `bit` is one of the eight single bits of a byte.
pub open spec fn single(bit: u8) -> bool {
    bit == 1 || bit == 2 || bit == 4 || bit == 8 || bit == 16 || bit == 32 || bit == 64 || bit
        == 128
}

/// An edge is kept for traversal when it carries a kind bit and a target bit,
/// and nothing but those.
pub open spec fn edge_retained(flags: u8) -> bool {
    &&& flags & MASK_CTX != 0
    &&& flags & MASK_TARGET != 0
    &&& flags & MASK_EDGE == flags
}

/// A union has a bit exactly when one of its sides has it.
pub proof fn lemma_carries_or(a: u8, b: u8, bit: u8)
    requires
        single(bit),
    ensures
        carries(a | b, bit) == (carries(a, bit) || carries(b, bit)),
{
    assert(((a | b) & bit == bit) == ((a & bit == bit) || (b & bit == bit))) by (bit_vector)
        requires
            bit == 1 || bit == 2 || bit == 4 || bit == 8 || bit == 16 || bit == 32 || bit == 64
                || bit == 128,
    ;
}

/// Two bytes with the same single bits are the same byte.
pub proof fn lemma_same_bits(a: u8, b: u8)
    requires
        forall|bit: u8| #![trigger carries(a, bit)] single(bit) ==> carries(a, bit) == carries(b, bit),
    ensures
        a == b,
{
    assert(carries(a, 1) == carries(b, 1));
    assert(carries(a, 2) == carries(b, 2));
    assert(carries(a, 4) == carries(b, 4));
    assert(carries(a, 8) == carries(b, 8));
    assert(carries(a, 16) == carries(b, 16));
    assert(carries(a, 32) == carries(b, 32));
    assert(carries(a, 64) == carries(b, 64));
    assert(carries(a, 128) == carries(b, 128));
    assert(a == b) by (bit_vector)
        requires
            (a & 1 == 1) == (b & 1 == 1),
            (a & 2 == 2) == (b & 2 == 2),
            (a & 4 == 4) == (b & 4 == 4),
            (a & 8 == 8) == (b & 8 == 8),
            (a & 16 == 16) == (b & 16 == 16),
            (a & 32 == 32) == (b & 32 == 32),
            (a & 64 == 64) == (b & 64 == 64),
            (a & 128 == 128) == (b & 128 == 128),
    ;
}

/// Every bit but the kind bits.
pub const CLEAR_CTX: u8 = 0b1100_1111;

/// Every bit but the target bits.
pub const CLEAR_TARGET: u8 = 0b1111_0011;

/// Every bit but the conditional-target bit.
pub const CLEAR_TARGET_CFG: u8 = 0b1111_0111;

/// The flags are those of a package that is needed to build and not at
/// runtime.
pub open spec fn build_only(flags: u8) -> bool {
    flags & MASK_CTX == FLAG_CTX_BUILD
}

/// The flags are those of a package that is needed under a target condition
/// and never without one.
pub open spec fn target_only(flags: u8) -> bool {
    flags & MASK_TARGET == FLAG_TARGET_CFG
}

/// The flags with the kind bits replaced by the build bit.
pub open spec fn force_build(flags: u8) -> u8 {
    (flags & CLEAR_CTX) | FLAG_CTX_BUILD
}

/// The flags with the target bits replaced by the conditional bit.
pub open spec fn force_cfg(flags: u8) -> u8 {
    (flags & CLEAR_TARGET) | FLAG_TARGET_CFG
}

/// Every byte has the empty mask.
pub proof fn lemma_carries_zero(a: u8)
    ensures
        carries(a, 0),
{
    assert(a & 0 == 0) by (bit_vector);
}

/// Forcing the build context sets the build bit, clears the runtime bit and
/// leaves every other bit alone.
pub proof fn lemma_force_build(a: u8, bit: u8)
    requires
        single(bit),
    ensures
        carries(force_build(a), bit) == (bit == FLAG_CTX_BUILD || (bit != FLAG_CTX_NORMAL && carries(
            a,
            bit,
        ))),
{
    assert((((a & 0b1100_1111) | 0b0010_0000) & bit == bit) == (bit == 0b0010_0000 || (bit
        != 0b0001_0000 && (a & bit == bit)))) by (bit_vector)
        requires
            bit == 1 || bit == 2 || bit == 4 || bit == 8 || bit == 16 || bit == 32 || bit == 64
                || bit == 128,
    ;
}

/// Forcing the conditional target sets the conditional bit, clears the
/// unconditional bit and leaves every other bit alone.
pub proof fn lemma_force_cfg(a: u8, bit: u8)
    requires
        single(bit),
    ensures
        carries(force_cfg(a), bit) == (bit == FLAG_TARGET_CFG || (bit != FLAG_TARGET_ANY && carries(
            a,
            bit,
        ))),
{
    assert((((a & 0b1111_0011) | 0b0000_1000) & bit == bit) == (bit == 0b0000_1000 || (bit
        != 0b0000_0100 && (a & bit == bit)))) by (bit_vector)
        requires
            bit == 1 || bit == 2 || bit == 4 || bit == 8 || bit == 16 || bit == 32 || bit == 64
                || bit == 128,
    ;
}

/// Clearing a bit clears it and leaves every other bit alone.
pub proof fn lemma_clear_cfg(a: u8, bit: u8)
    requires
        single(bit),
    ensures
        carries(a & CLEAR_TARGET_CFG, bit) == (bit != FLAG_TARGET_CFG && carries(a, bit)),
{
    assert(((a & 0b1111_0111) & bit == bit) == (bit != 0b0000_1000 && (a & bit == bit)))
        by (bit_vector)
        requires
            bit == 1 || bit == 2 || bit == 4 || bit == 8 || bit == 16 || bit == 32 || bit == 64
                || bit == 128,
    ;
}

/// A classified edge carries kind and target bits only.
pub proof fn lemma_edge_bits(a: u8, bit: u8)
    requires
        edge_retained(a),
        single(bit),
        carries(a, bit),
    ensures
        bit == FLAG_CTX_NORMAL || bit == FLAG_CTX_BUILD || bit == FLAG_TARGET_ANY || bit
            == FLAG_TARGET_CFG,
{
    assert(bit == 0b0001_0000 || bit == 0b0010_0000 || bit == 0b0000_0100 || bit == 0b0000_1000)
        by (bit_vector)
        requires
            a & 0b0011_1100 == a,
            a & bit == bit,
            bit == 1 || bit == 2 || bit == 4 || bit == 8 || bit == 16 || bit == 32 || bit == 64
                || bit == 128,
    ;
}

/// A single bit carries itself and no other single bit.
pub proof fn lemma_single_carries(a: u8, bit: u8)
    requires
        single(a),
        single(bit),
    ensures
        carries(a, bit) == (a == bit),
{
    assert((a & bit == bit) == (a == bit)) by (bit_vector)
        requires
            a == 1 || a == 2 || a == 4 || a == 8 || a == 16 || a == 32 || a == 64 || a == 128,
            bit == 1 || bit == 2 || bit == 4 || bit == 8 || bit == 16 || bit == 32 || bit == 64
                || bit == 128,
    ;
}

/// Nothing carries no single bit.
pub proof fn lemma_single_zero(bit: u8)
    requires
        single(bit),
    ensures
        !carries(0, bit),
{
    assert(0u8 & bit != bit) by (bit_vector)
        requires
            bit == 1 || bit == 2 || bit == 4 || bit == 8 || bit == 16 || bit == 32 || bit == 64
                || bit == 128,
    ;
}

/// The union of bits, each there or not, carries exactly those that are
/// there.
pub proof fn lemma_join_bits(a: u8, b: u8, c: u8, d: u8, e: u8, bit: u8)
    requires
        a == 0 || a == FLAG_DIRECT,
        b == 0 || b == FLAG_TARGET_ANY,
        c == 0 || c == FLAG_TARGET_CFG,
        d == 0 || d == FLAG_CTX_NORMAL,
        e == 0 || e == FLAG_CTX_BUILD,
        single(bit),
    ensures
        carries(a | b | c | d | e, bit) == (if bit == FLAG_DIRECT {
            a != 0
        } else if bit == FLAG_TARGET_ANY {
            b != 0
        } else if bit == FLAG_TARGET_CFG {
            c != 0
        } else if bit == FLAG_CTX_NORMAL {
            d != 0
        } else if bit == FLAG_CTX_BUILD {
            e != 0
        } else {
            false
        }),
{
    assert(((a | b | c | d | e) & bit == bit) == (if bit == 1 {
        a != 0
    } else if bit == 4 {
        b != 0
    } else if bit == 8 {
        c != 0
    } else if bit == 16 {
        d != 0
    } else if bit == 32 {
        e != 0
    } else {
        false
    })) by (bit_vector)
        requires
            a == 0 || a == 1,
            b == 0 || b == 4,
            c == 0 || c == 8,
            d == 0 || d == 16,
            e == 0 || e == 32,
            bit == 1 || bit == 2 || bit == 4 || bit == 8 || bit == 16 || bit == 32 || bit == 64
                || bit == 128,
    ;
}

/// What the two masks say, bit by bit.
pub proof fn lemma_masks(a: u8)
    ensures
        build_only(a) == (carries(a, FLAG_CTX_BUILD) && !carries(a, FLAG_CTX_NORMAL)),
        target_only(a) == (carries(a, FLAG_TARGET_CFG) && !carries(a, FLAG_TARGET_ANY)),
        (a & MASK_CTX != 0) == (carries(a, FLAG_CTX_BUILD) || carries(a, FLAG_CTX_NORMAL)),
        (a & MASK_TARGET != 0) == (carries(a, FLAG_TARGET_CFG) || carries(a, FLAG_TARGET_ANY)),
{
    assert((a & 0b0011_0000 == 0b0010_0000) == ((a & 0b0010_0000 == 0b0010_0000) && !(a
        & 0b0001_0000 == 0b0001_0000))) by (bit_vector);
    assert((a & 0b0000_1100 == 0b0000_1000) == ((a & 0b0000_1000 == 0b0000_1000) && !(a
        & 0b0000_0100 == 0b0000_0100))) by (bit_vector);
    assert((a & 0b0011_0000 != 0) == ((a & 0b0010_0000 == 0b0010_0000) || (a & 0b0001_0000
        == 0b0001_0000))) by (bit_vector);
    assert((a & 0b0000_1100 != 0) == ((a & 0b0000_1000 == 0b0000_1000) || (a & 0b0000_0100
        == 0b0000_0100))) by (bit_vector);
}


/// The kind of a dependency declaration.
#[derive(Clone, Copy, Debug, PartialEq, Eq, Structural)]
pub enum NodeDepKind {
    /// Used in development only.
    Dev,
    /// Needed at runtime.
    Normal,
    /// Needed to build.
    Build,
}

/// The target condition of a dependency declaration.
#[derive(Clone, Copy, Debug, PartialEq, Eq, Structural)]
pub enum NodeDepTarget {
    /// The condition can never hold.
    Never,
    /// No condition: the declaration always applies.
    Any,
    /// Some condition on the target.
    Cfg,
}

/// One declaration behind an edge: its kind and its target condition.
#[derive(Clone, Copy, Debug, PartialEq, Eq, Structural)]
pub struct RawNodeDepKind {
    pub kind: NodeDepKind,
    pub target: NodeDepTarget,
}

/// The kind named by a raw `kind` field: `build`, `dev`, and anything else,
/// a missing field included, is normal.
pub open spec fn kind_of(raw: Option<Seq<char>>) -> NodeDepKind {
    match raw {
        Some(s) => if s == "build"@ {
            NodeDepKind::Build
        } else if s == "dev"@ {
            NodeDepKind::Dev
        } else {
            NodeDepKind::Normal
        },
        None => NodeDepKind::Normal,
    }
}

/// The condition named by a raw `target` field: a missing field and
/// `cfg(all())` always apply, `cfg(any())` never does, and anything else is a
/// condition.
pub open spec fn target_of(raw: Option<Seq<char>>) -> NodeDepTarget {
    match raw {
        Some(s) => if s == "cfg(any())"@ {
            NodeDepTarget::Never
        } else if s == "cfg(all())"@ {
            NodeDepTarget::Any
        } else {
            NodeDepTarget::Cfg
        },
        None => NodeDepTarget::Any,
    }
}

/// The view of an optional string slice.
pub open spec fn opt_view(raw: Option<&str>) -> Option<Seq<char>> {
    match raw {
        Some(s) => Some(s@),
        None => None,
    }
}

impl Default for NodeDepKind {
    fn default() -> (r: Self)
        ensures
            r == NodeDepKind::Normal,
    {
        NodeDepKind::Normal
    }
}

impl Default for NodeDepTarget {
    fn default() -> (r: Self)
        ensures
            r == NodeDepTarget::Any,
    {
        NodeDepTarget::Any
    }
}

impl NodeDepKind {
    /// Reads a raw `kind` field.
    pub fn parse(raw: Option<&str>) -> (r: Self)
        ensures
            r == kind_of(opt_view(raw)),
    {
        match raw {
            Some(s) => if str_eq(s, "build") {
                NodeDepKind::Build
            } else if str_eq(s, "dev") {
                NodeDepKind::Dev
            } else {
                NodeDepKind::Normal
            },
            None => NodeDepKind::Normal,
        }
    }

    /// The kind bit of an edge of this kind; none for development.
    pub open spec fn bit(self) -> u8 {
        match self {
            NodeDepKind::Dev => 0,
            NodeDepKind::Normal => FLAG_CTX_NORMAL,
            NodeDepKind::Build => FLAG_CTX_BUILD,
        }
    }
}

impl NodeDepTarget {
    /// Reads a raw `target` field.
    pub fn parse(raw: Option<&str>) -> (r: Self)
        ensures
            r == target_of(opt_view(raw)),
    {
        match raw {
            Some(s) => if str_eq(s, "cfg(any())") {
                NodeDepTarget::Never
            } else if str_eq(s, "cfg(all())") {
                NodeDepTarget::Any
            } else {
                NodeDepTarget::Cfg
            },
            None => NodeDepTarget::Any,
        }
    }

    /// The target bit of an edge under this condition; none where it never
    /// holds.
    pub open spec fn bit(self) -> u8 {
        match self {
            NodeDepTarget::Never => 0,
            NodeDepTarget::Any => FLAG_TARGET_ANY,
            NodeDepTarget::Cfg => FLAG_TARGET_CFG,
        }
    }
}

/// The flag of a declaration of the given kind under the given condition.
pub open spec fn flag_of(kind: NodeDepKind, target: NodeDepTarget) -> u8 {
    if kind is Dev || target is Never {
        0
    } else {
        kind.bit() | target.bit()
    }
}

impl RawNodeDepKind {
    /// The flag of one declaration: nothing for a development dependency or
    /// for a condition that never holds, else the kind bit with the target
    /// bit.
    pub open spec fn flag(self) -> u8 {
        flag_of(self.kind, self.target)
    }

    /// Reads one raw declaration.
    pub fn parse(kind: Option<&str>, target: Option<&str>) -> (r: Self)
        ensures
            r.kind == kind_of(opt_view(kind)),
            r.target == target_of(opt_view(target)),
    {
        RawNodeDepKind { kind: NodeDepKind::parse(kind), target: NodeDepTarget::parse(target) }
    }

    /// Classifies the declaration.
    pub fn as_flag(self) -> (r: u8)
        ensures
            r == self.flag(),
            r == 0 || edge_retained(r),
    {
        proof {
            lemma_flag_table();
        }
        let k: u8 = match self.kind {
            NodeDepKind::Dev => { return 0; },
            NodeDepKind::Normal => FLAG_CTX_NORMAL,
            NodeDepKind::Build => FLAG_CTX_BUILD,
        };
        let t: u8 = match self.target {
            NodeDepTarget::Never => { return 0; },
            NodeDepTarget::Any => FLAG_TARGET_ANY,
            NodeDepTarget::Cfg => FLAG_TARGET_CFG,
        };
        k | t
    }
}

/// The whole classification, case by case: development and never-satisfied
/// edges carry nothing; each of the four others carries one kind bit and one
/// target bit.
pub proof fn lemma_flag_table()
    ensures
        forall|t: NodeDepTarget| #[trigger] flag_of(NodeDepKind::Dev, t) == 0,
        forall|k: NodeDepKind| #[trigger] flag_of(k, NodeDepTarget::Never) == 0,
        flag_of(NodeDepKind::Normal, NodeDepTarget::Any) == 0b0001_0100,
        flag_of(NodeDepKind::Normal, NodeDepTarget::Cfg) == 0b0001_1000,
        flag_of(NodeDepKind::Build, NodeDepTarget::Any) == 0b0010_0100,
        flag_of(NodeDepKind::Build, NodeDepTarget::Cfg) == 0b0010_1000,
        forall|k: NodeDepKind, t: NodeDepTarget|
            #[trigger] flag_of(k, t) == 0 || edge_retained(flag_of(k, t)),
{
    assert(0b0001_0000u8 | 0b0000_0100u8 == 0b0001_0100u8) by (bit_vector);
    assert(0b0001_0000u8 | 0b0000_1000u8 == 0b0001_1000u8) by (bit_vector);
    assert(0b0010_0000u8 | 0b0000_0100u8 == 0b0010_0100u8) by (bit_vector);
    assert(0b0010_0000u8 | 0b0000_1000u8 == 0b0010_1000u8) by (bit_vector);
    assert(forall|f: u8|
        (f == 0b0001_0100u8 || f == 0b0001_1000u8 || f == 0b0010_0100u8 || f == 0b0010_1000u8)
            ==> (f & 0b0011_0000u8 != 0 && f & 0b0000_1100u8 != 0 && f & 0b0011_1100u8 == f))
        by (bit_vector);
    assert forall|k: NodeDepKind, t: NodeDepTarget|
        #[trigger] flag_of(k, t) == 0 || edge_retained(flag_of(k, t)) by {
        let f = flag_of(k, t);
        if !(k is Dev || t is Never) {
            assert(f == 0b0001_0100u8 || f == 0b0001_1000u8 || f == 0b0010_0100u8 || f
                == 0b0010_1000u8);
        }
    }
}

/// The flag of an edge with several declarations: the union of the flags of
/// its declarations.
pub open spec fn union_flags(kinds: Seq<RawNodeDepKind>) -> u8
    decreases kinds.len(),
{
    if kinds.len() == 0 {
        0
    } else {
        union_flags(kinds.drop_last()) | kinds.last().flag()
    }
}

/// The union of classified flags is a classified flag, or nothing.
pub proof fn lemma_union_retained(a: u8, b: u8)
    requires
        a == 0 || edge_retained(a),
        b == 0 || edge_retained(b),
    ensures
        (a | b) == 0 || edge_retained(a | b),
        (a | b) == 0 <==> (a == 0 && b == 0),
{
    assert(((a | b) == 0 || ((a | b) & 0b0011_0000 != 0 && (a | b) & 0b0000_1100 != 0 && (a | b)
        & 0b0011_1100 == (a | b))) && (((a | b) == 0) == (a == 0 && b == 0))) by (bit_vector)
        requires
            a == 0 || (a & 0b0011_0000 != 0 && a & 0b0000_1100 != 0 && a & 0b0011_1100 == a),
            b == 0 || (b & 0b0011_0000 != 0 && b & 0b0000_1100 != 0 && b & 0b0011_1100 == b),
    ;
}

/// The flag of an edge is nothing or a classified flag, and it holds a bit
/// exactly when the flag of one of the declarations does.
pub proof fn lemma_union_flags(kinds: Seq<RawNodeDepKind>)
    ensures
        union_flags(kinds) == 0 || edge_retained(union_flags(kinds)),
        union_flags(kinds) == 0 <==> forall|i: int|
            0 <= i < kinds.len() ==> (#[trigger] kinds[i]).flag() == 0,
        forall|bit: u8|
            single(bit) ==> (#[trigger] carries(union_flags(kinds), bit) <==> exists|i: int|
                0 <= i < kinds.len() && carries((#[trigger] kinds[i]).flag(), bit)),
    decreases kinds.len(),
{
    if kinds.len() == 0 {
        assert forall|bit: u8| single(bit) implies !#[trigger] carries(union_flags(kinds), bit) by {
            lemma_single_zero(bit);
        }
    } else {
        let front = kinds.drop_last();
        let last = kinds.last();
        lemma_union_flags(front);
        lemma_flag_table();
        lemma_union_retained(union_flags(front), last.flag());
        assert forall|i: int| 0 <= i < front.len() implies front[i] == kinds[i] by {}
        if union_flags(kinds) == 0 {
            assert forall|i: int| 0 <= i < kinds.len() implies (#[trigger] kinds[i]).flag() == 0 by {
                if i < front.len() {
                    assert(front[i].flag() == 0);
                }
            }
        } else {
            if union_flags(front) != 0 {
                let i = choose|i: int| 0 <= i < front.len() && (#[trigger] front[i]).flag() != 0;
                assert(kinds[i].flag() != 0);
            } else {
                assert(kinds[kinds.len() - 1].flag() != 0);
            }
        }
        assert forall|bit: u8| single(bit) implies (#[trigger] carries(union_flags(kinds), bit)
            <==> exists|i: int|
            0 <= i < kinds.len() && carries((#[trigger] kinds[i]).flag(), bit)) by {
            lemma_carries_or(union_flags(front), last.flag(), bit);
            if carries(union_flags(front), bit) {
                let i = choose|i: int|
                    0 <= i < front.len() && carries((#[trigger] front[i]).flag(), bit);
                assert(carries(kinds[i].flag(), bit));
            }
            if carries(last.flag(), bit) {
                assert(carries(kinds[kinds.len() - 1].flag(), bit));
            }
            if exists|i: int| 0 <= i < kinds.len() && carries((#[trigger] kinds[i]).flag(), bit) {
                let i = choose|i: int|
                    0 <= i < kinds.len() && carries((#[trigger] kinds[i]).flag(), bit);
                if i < front.len() {
                    assert(carries(front[i].flag(), bit));
                }
            }
        }
    }
}

/// The flag of an edge, from its declarations: the union of their flags.
/// It is nothing exactly when every declaration is for development or can
/// never apply; such an edge is dropped.
pub fn deserialize_dep_kinds(kinds: &Vec<RawNodeDepKind>) -> (r: u8)
    ensures
        r == union_flags(kinds@),
        r == 0 || edge_retained(r),
{
    let mut r: u8 = 0;
    let mut i: usize = 0;
    assert(kinds@.take(0) =~= Seq::<RawNodeDepKind>::empty());
    while i < kinds.len()
        invariant
            i <= kinds@.len(),
            r == union_flags(kinds@.take(i as int)),
        decreases kinds@.len() - i,
    {
        assert(kinds@.take(i + 1).drop_last() =~= kinds@.take(i as int));
        r = r | kinds[i].as_flag();
        i += 1;
    }
    assert(kinds@.take(kinds@.len() as int) =~= kinds@);
    proof {
        lemma_union_flags(kinds@);
    }
    r
}

/// The flag of an edge of which nothing is written: a runtime dependency
/// that always applies.
pub fn default_depkinds() -> (r: u8)
    ensures
        r == flag_of(NodeDepKind::Normal, NodeDepTarget::Any),
        r == 0b0001_0100,
{
    proof {
        lemma_flag_table();
    }
    0b0001_0100
}

} // verus!
