//! The tag model: one closed enumeration for standalone values, one for columns.
use vstd::prelude::*;

verus! {

/// The shape of one standalone value.
#[derive(PartialEq, Eq, Structural, Clone, Copy, Debug)]
pub enum RootTypeId {
    Obj0,
    Obj1,
    Obj2,
    Obj3,
    Obj4,
    Obj5,
    Obj6,
    Obj7,
    Obj8,
    ObjN,
    Enum,
    True,
    False,
    U64,
}

/// The shape of one columnar batch; every shape carries a payload.
#[derive(PartialEq, Eq, Structural, Clone, Copy, Debug)]
pub enum ArrayTypeId {
    Obj0,
    Obj1,
    Obj2,
    Obj3,
    Obj4,
    Obj5,
    Obj6,
    Obj7,
    Obj8,
    ObjN,
    Enum,
    Boolean,
    U64,
}

/// The byte that stands for a root shape on the wire.
pub open spec fn root_tag_byte(t: RootTypeId) -> u8 {
    match t {
        RootTypeId::Obj0 => 0,
        RootTypeId::Obj1 => 1,
        RootTypeId::Obj2 => 2,
        RootTypeId::Obj3 => 3,
        RootTypeId::Obj4 => 4,
        RootTypeId::Obj5 => 5,
        RootTypeId::Obj6 => 6,
        RootTypeId::Obj7 => 7,
        RootTypeId::Obj8 => 8,
        RootTypeId::ObjN => 9,
        RootTypeId::Enum => 10,
        RootTypeId::True => 11,
        RootTypeId::False => 12,
        RootTypeId::U64 => 13,
    }
}

/// The byte that stands for a column shape on the wire.
pub open spec fn array_tag_byte(t: ArrayTypeId) -> u8 {
    match t {
        ArrayTypeId::Obj0 => 0,
        ArrayTypeId::Obj1 => 1,
        ArrayTypeId::Obj2 => 2,
        ArrayTypeId::Obj3 => 3,
        ArrayTypeId::Obj4 => 4,
        ArrayTypeId::Obj5 => 5,
        ArrayTypeId::Obj6 => 6,
        ArrayTypeId::Obj7 => 7,
        ArrayTypeId::Obj8 => 8,
        ArrayTypeId::ObjN => 9,
        ArrayTypeId::Enum => 10,
        ArrayTypeId::Boolean => 11,
        ArrayTypeId::U64 => 12,
    }
}

/// The number of fields that an object tag states inline, if it states one.
pub open spec fn root_inline_arity(t: RootTypeId) -> Option<nat> {
    let b = root_tag_byte(t);
    if b <= 8 { Some(b as nat) } else { None }
}

impl RootTypeId {
    /// The tag byte of this shape.
    pub fn to_byte(self) -> (r: u8)
        ensures
            r == root_tag_byte(self),
    {
        match self {
            RootTypeId::Obj0 => 0,
            RootTypeId::Obj1 => 1,
            RootTypeId::Obj2 => 2,
            RootTypeId::Obj3 => 3,
            RootTypeId::Obj4 => 4,
            RootTypeId::Obj5 => 5,
            RootTypeId::Obj6 => 6,
            RootTypeId::Obj7 => 7,
            RootTypeId::Obj8 => 8,
            RootTypeId::ObjN => 9,
            RootTypeId::Enum => 10,
            RootTypeId::True => 11,
            RootTypeId::False => 12,
            RootTypeId::U64 => 13,
        }
    }

    /// The shape that a tag byte stands for; `None` for a byte that is no tag.
    pub fn from_byte(b: u8) -> (r: Option<RootTypeId>)
        ensures
            r matches Some(t) ==> root_tag_byte(t) == b,
            r is None <==> b > 13,
    {
        match b {
            0 => Some(RootTypeId::Obj0),
            1 => Some(RootTypeId::Obj1),
            2 => Some(RootTypeId::Obj2),
            3 => Some(RootTypeId::Obj3),
            4 => Some(RootTypeId::Obj4),
            5 => Some(RootTypeId::Obj5),
            6 => Some(RootTypeId::Obj6),
            7 => Some(RootTypeId::Obj7),
            8 => Some(RootTypeId::Obj8),
            9 => Some(RootTypeId::ObjN),
            10 => Some(RootTypeId::Enum),
            11 => Some(RootTypeId::True),
            12 => Some(RootTypeId::False),
            13 => Some(RootTypeId::U64),
            _ => None,
        }
    }

    /// The object tag for `n` fields: inline up to eight, the generic tag beyond.
    pub fn object(n: usize) -> (r: RootTypeId)
        ensures
            n <= 8 ==> root_tag_byte(r) == n,
            n > 8 ==> r == RootTypeId::ObjN,
    {
        match n {
            0 => RootTypeId::Obj0,
            1 => RootTypeId::Obj1,
            2 => RootTypeId::Obj2,
            3 => RootTypeId::Obj3,
            4 => RootTypeId::Obj4,
            5 => RootTypeId::Obj5,
            6 => RootTypeId::Obj6,
            7 => RootTypeId::Obj7,
            8 => RootTypeId::Obj8,
            _ => RootTypeId::ObjN,
        }
    }
}

impl ArrayTypeId {
    /// The tag byte of this shape.
    pub fn to_byte(self) -> (r: u8)
        ensures
            r == array_tag_byte(self),
    {
        match self {
            ArrayTypeId::Obj0 => 0,
            ArrayTypeId::Obj1 => 1,
            ArrayTypeId::Obj2 => 2,
            ArrayTypeId::Obj3 => 3,
            ArrayTypeId::Obj4 => 4,
            ArrayTypeId::Obj5 => 5,
            ArrayTypeId::Obj6 => 6,
            ArrayTypeId::Obj7 => 7,
            ArrayTypeId::Obj8 => 8,
            ArrayTypeId::ObjN => 9,
            ArrayTypeId::Enum => 10,
            ArrayTypeId::Boolean => 11,
            ArrayTypeId::U64 => 12,
        }
    }

    /// The shape that a tag byte stands for; `None` for a byte that is no tag.
    pub fn from_byte(b: u8) -> (r: Option<ArrayTypeId>)
        ensures
            r matches Some(t) ==> array_tag_byte(t) == b,
            r is None <==> b > 12,
    {
        match b {
            0 => Some(ArrayTypeId::Obj0),
            1 => Some(ArrayTypeId::Obj1),
            2 => Some(ArrayTypeId::Obj2),
            3 => Some(ArrayTypeId::Obj3),
            4 => Some(ArrayTypeId::Obj4),
            5 => Some(ArrayTypeId::Obj5),
            6 => Some(ArrayTypeId::Obj6),
            7 => Some(ArrayTypeId::Obj7),
            8 => Some(ArrayTypeId::Obj8),
            9 => Some(ArrayTypeId::ObjN),
            10 => Some(ArrayTypeId::Enum),
            11 => Some(ArrayTypeId::Boolean),
            12 => Some(ArrayTypeId::U64),
            _ => None,
        }
    }

    /// The column object tag for `n` fields: inline up to eight, the generic tag beyond.
    pub fn object(n: usize) -> (r: ArrayTypeId)
        ensures
            n <= 8 ==> array_tag_byte(r) == n,
            n > 8 ==> r == ArrayTypeId::ObjN,
    {
        match n {
            0 => ArrayTypeId::Obj0,
            1 => ArrayTypeId::Obj1,
            2 => ArrayTypeId::Obj2,
            3 => ArrayTypeId::Obj3,
            4 => ArrayTypeId::Obj4,
            5 => ArrayTypeId::Obj5,
            6 => ArrayTypeId::Obj6,
            7 => ArrayTypeId::Obj7,
            8 => ArrayTypeId::Obj8,
            _ => ArrayTypeId::ObjN,
        }
    }
}

/// Distinct root shapes have distinct tag bytes, so a tag never decodes to two shapes.
pub proof fn lemma_root_tags_distinct(a: RootTypeId, b: RootTypeId)
    ensures
        root_tag_byte(a) == root_tag_byte(b) ==> a == b,
{
}

/// Distinct column shapes have distinct tag bytes.
pub proof fn lemma_array_tags_distinct(a: ArrayTypeId, b: ArrayTypeId)
    ensures
        array_tag_byte(a) == array_tag_byte(b) ==> a == b,
{
}

} // verus!
