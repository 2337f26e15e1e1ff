//! Small shared pieces of the engine's top level: monotone id
//! allocation and the banned-namespace test on raw keys.

use vstd::prelude::*;

use crate::codec::be64_val;
use crate::errors::DBError;

verus! {

/// A monotonically assigned numeric id.
#[derive(Debug)]
pub struct NextId {
    pub value: u32,
}

impl NextId {
    #[inline]
    pub fn new() -> (r: NextId)
        ensures
            r.value == 0,
    {
        NextId { value: 0 }
    }

    #[inline]
    pub fn get_next_id(&self) -> (r: u32)
        ensures
            r == self.value,
    {
        self.value
    }

    /// Advances the id and hands back the one before.
    #[inline]
    pub fn add_next_id(&mut self) -> (r: u32)
        requires
            old(self).value < u32::MAX,
        ensures
            r == old(self).value,
            final(self).value == old(self).value + 1,
    {
        let r = self.value;
        self.value = self.value + 1;
        r
    }

    #[inline]
    pub fn store(&mut self, val: u32)
        ensures
            final(self).value == val,
    {
        self.value = val;
    }
}

/// Whether a key falls in a banned namespace: when a namespace offset
/// is configured, the eight bytes there name the key's namespace, and
/// a key whose namespace is banned is refused. Keys too short to carry
/// a namespace always pass.
pub fn is_banned(
    key: &[u8],
    name_space_offset: Option<usize>,
    banned_namespaces: &Vec<u64>,
) -> (r: Result<(), DBError>)
    ensures
        match r {
            Ok(()) => match name_space_offset {
                Some(offset) => key@.len() <= offset + 8 || !banned_namespaces@.contains(
                    be64_val(key@.subrange(offset as int, offset + 8)),
                ),
                None => true,
            },
            Err(e) => {
                &&& e == DBError::BannedKey
                &&& match name_space_offset {
                    Some(offset) => key@.len() > offset + 8 && banned_namespaces@.contains(
                        be64_val(key@.subrange(offset as int, offset + 8)),
                    ),
                    None => false,
                }
            },
        },
{
    let offset = match name_space_offset {
        Some(o) => o,
        None => {
            return Ok(());
        },
    };
    if key.len() <= offset || key.len() - offset <= 8 {
        return Ok(());
    }
    let name_space = crate::codec::get_u64_be(key, offset);
    let n = banned_namespaces.len();
    let mut i: usize = 0;
    while i < n
        invariant
            i <= n == banned_namespaces@.len(),
            forall|k: int| 0 <= k < i ==> banned_namespaces@[k] != name_space,
            name_space == be64_val(key@.subrange(offset as int, offset + 8)),
            key@.len() > offset + 8,
            name_space_offset == Some(offset),
        decreases n - i,
    {
        if banned_namespaces[i] == name_space {
            proof {
                assert(banned_namespaces@.contains(name_space));
            }
            return Err(DBError::BannedKey);
        }
        i = i + 1;
    }
    proof {
        if banned_namespaces@.contains(name_space) {
            let k = choose|k: int|
                0 <= k < banned_namespaces@.len() && banned_namespaces@[k] == name_space;
        }
    }
    Ok(())
}

} // verus!
