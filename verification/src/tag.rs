//! The tag value model: the recursive sum type a decoded tree document is
//! made of, with its discriminants and typed accessors.
use vstd::prelude::*;

verus! {

/// One node of the named-binary-tag tree.
///
/// Float and double payloads are carried as their raw 32- and 64-bit
/// patterns, which is what the byte layout stores; a consumer that wants
/// arithmetic converts at the boundary. A compound is an ordered sequence
/// of entries so that a decoded document re-encodes byte for byte. Every
/// decoded tree satisfies the data-model invariant — compound keys unique,
/// lists homogeneous; a hand-built tree that breaks it is a caller error
/// the encoder does not police.
#[derive(Debug, PartialEq)]
pub enum Tag {
    End,
    Byte(i8),
    Short(i16),
    Int(i32),
    Long(i64),
    Float(u32),
    Double(u64),
    ByteArray(Vec<u8>),
    String(String),
    List(Vec<Tag>),
    Compound(Vec<(String, Tag)>),
    IntArray(Vec<i32>),
    LongArray(Vec<i64>),
}

impl Default for Tag {
    fn default() -> (r: Tag)
        ensures
            r == Tag::End,
    {
        Tag::End
    }
}

impl Tag {
    /// The discriminant of this node's variant, as the format stores it.
    pub open spec fn spec_id(&self) -> u8 {
        match *self {
            Tag::End => 0,
            Tag::Byte(_) => 1,
            Tag::Short(_) => 2,
            Tag::Int(_) => 3,
            Tag::Long(_) => 4,
            Tag::Float(_) => 5,
            Tag::Double(_) => 6,
            Tag::ByteArray(_) => 7,
            Tag::String(_) => 8,
            Tag::List(_) => 9,
            Tag::Compound(_) => 10,
            Tag::IntArray(_) => 11,
            Tag::LongArray(_) => 12,
        }
    }

    /// Get the numerical ID of the tag type.
    pub fn id(&self) -> (r: u8)
        ensures
            r == self.spec_id(),
    {
        match self {
            Tag::End => 0,
            Tag::Byte(_) => 1,
            Tag::Short(_) => 2,
            Tag::Int(_) => 3,
            Tag::Long(_) => 4,
            Tag::Float(_) => 5,
            Tag::Double(_) => 6,
            Tag::ByteArray(_) => 7,
            Tag::String(_) => 8,
            Tag::List(_) => 9,
            Tag::Compound(_) => 10,
            Tag::IntArray(_) => 11,
            Tag::LongArray(_) => 12,
        }
    }

    /// If the type is a byte, return the value.
    pub fn as_byte(&self) -> (r: Option<&i8>)
        ensures
            match *self {
                Tag::Byte(b) => r matches Some(v) && *v == b,
                _ => r is None,
            },
    {
        if let Tag::Byte(v) = self {
            Some(v)
        } else {
            None
        }
    }

    /// If the type is a short, return the value.
    pub fn as_short(&self) -> (r: Option<&i16>)
        ensures
            match *self {
                Tag::Short(n) => r matches Some(v) && *v == n,
                _ => r is None,
            },
    {
        if let Tag::Short(v) = self {
            Some(v)
        } else {
            None
        }
    }

    /// If the type is an int, return the value.
    pub fn as_int(&self) -> (r: Option<&i32>)
        ensures
            match *self {
                Tag::Int(n) => r matches Some(v) && *v == n,
                _ => r is None,
            },
    {
        if let Tag::Int(v) = self {
            Some(v)
        } else {
            None
        }
    }

    /// If the type is a long, return the value.
    pub fn as_long(&self) -> (r: Option<&i64>)
        ensures
            match *self {
                Tag::Long(n) => r matches Some(v) && *v == n,
                _ => r is None,
            },
    {
        if let Tag::Long(v) = self {
            Some(v)
        } else {
            None
        }
    }

    /// If the type is a float, return its raw 32-bit pattern.
    pub fn as_float(&self) -> (r: Option<&u32>)
        ensures
            match *self {
                Tag::Float(bits) => r matches Some(v) && *v == bits,
                _ => r is None,
            },
    {
        if let Tag::Float(v) = self {
            Some(v)
        } else {
            None
        }
    }

    /// If the type is a double, return its raw 64-bit pattern.
    pub fn as_double(&self) -> (r: Option<&u64>)
        ensures
            match *self {
                Tag::Double(bits) => r matches Some(v) && *v == bits,
                _ => r is None,
            },
    {
        if let Tag::Double(v) = self {
            Some(v)
        } else {
            None
        }
    }

    /// If the type is a string, return it.
    pub fn as_string(&self) -> (r: Option<&str>)
        ensures
            match *self {
                Tag::String(s) => r matches Some(v) && v@ == s@,
                _ => r is None,
            },
    {
        if let Tag::String(v) = self {
            Some(v.as_str())
        } else {
            None
        }
    }

    /// If the type is a compound, return its entries in order.
    pub fn as_compound(&self) -> (r: Option<&Vec<(String, Tag)>>)
        ensures
            match *self {
                Tag::Compound(es) => r matches Some(v) && *v == es,
                _ => r is None,
            },
    {
        if let Tag::Compound(v) = self {
            Some(v)
        } else {
            None
        }
    }

    /// If the type is a byte array, return the bytes.
    pub fn as_bytearray(&self) -> (r: Option<&[u8]>)
        ensures
            match *self {
                Tag::ByteArray(b) => r matches Some(v) && v@ == b@,
                _ => r is None,
            },
    {
        if let Tag::ByteArray(v) = self {
            Some(v.as_slice())
        } else {
            None
        }
    }

    /// If the type is an int array, return it.
    pub fn as_intarray(&self) -> (r: Option<&Vec<i32>>)
        ensures
            match *self {
                Tag::IntArray(a) => r matches Some(v) && *v == a,
                _ => r is None,
            },
    {
        if let Tag::IntArray(v) = self {
            Some(v)
        } else {
            None
        }
    }

    /// If the type is a long array, return it.
    pub fn as_longarray(&self) -> (r: Option<&Vec<i64>>)
        ensures
            match *self {
                Tag::LongArray(a) => r matches Some(v) && *v == a,
                _ => r is None,
            },
    {
        if let Tag::LongArray(v) = self {
            Some(v)
        } else {
            None
        }
    }

    /// If the type is a list, return the elements in order.
    pub fn as_list(&self) -> (r: Option<&[Tag]>)
        ensures
            match *self {
                Tag::List(items) => r matches Some(v) && v@ == items@,
                _ => r is None,
            },
    {
        if let Tag::List(v) = self {
            Some(v.as_slice())
        } else {
            None
        }
    }
}

} // verus!
