use vstd::prelude::*;

verus! {

/// Identifier of a record within its source.
#[derive(Debug, Clone, PartialEq, Eq, Hash)]
pub enum Key {
    U32(u32),
    U64(u64),
    /// Identifier handed out by the string interner of a data context.
    InternedString(u32),
    Bytes(Vec<u8>),
}

impl Key {
    pub fn from_u32(v: u32) -> (k: Self)
        ensures
            k == Key::U32(v),
    {
        Key::U32(v)
    }

    pub fn from_u64(v: u64) -> (k: Self)
        ensures
            k == Key::U64(v),
    {
        Key::U64(v)
    }

    pub fn from_bytes(v: Vec<u8>) -> (k: Self)
        ensures
            k == Key::Bytes(v),
    {
        Key::Bytes(v)
    }

    /// Key for an interned string; the identifier must come from the interner
    /// of the data context the key is used with.
    pub fn from_interned_string(id: u32) -> (k: Self)
        ensures
            k == Key::InternedString(id),
    {
        Key::InternedString(id)
    }

    /// Whether this key is an interned string.
    pub fn is_interned_string(&self) -> (b: bool)
        ensures
            b == (*self is InternedString),
    {
        match self {
            Key::InternedString(_) => true,
            _ => false,
        }
    }

    /// The interner identifier, when this key is an interned string.
    pub fn as_interned_string(&self) -> (r: Option<u32>)
        ensures
            r == (match *self {
                Key::InternedString(id) => Some(id),
                _ => None,
            }),
    {
        match self {
            Key::InternedString(id) => Some(*id),
            _ => None,
        }
    }
}

} // verus!
