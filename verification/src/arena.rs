//! Append-only byte arena for file and directory names.

use vstd::prelude::*;

use crate::outside::{str_from_utf8, vec_capacity, vec_shrink};

verus! {

/// Names longer than this are truncated on insert; `u16` lengths keep the
/// columnar index small and no real filesystem allows longer components anyway.
pub const MAX_NAME_LEN: usize = 65535;

/// The part of a name that is kept.
pub open spec fn kept_name(name: Seq<u8>) -> Seq<u8> {
    if name.len() > MAX_NAME_LEN {
        name.subrange(0, MAX_NAME_LEN as int)
    } else {
        name
    }
}

#[derive(Debug, Clone)]
pub struct Arena {
    buf: Vec<u8>,
}

impl View for Arena {
    type V = Seq<u8>;

    closed spec fn view(&self) -> Seq<u8> {
        self.buf@
    }
}

impl Default for Arena {
    fn default() -> (r: Self)
        ensures
            r@ == Seq::<u8>::empty(),
    {
        Arena::new()
    }
}

impl Arena {
    pub fn new() -> (r: Self)
        ensures
            r@ == Seq::<u8>::empty(),
    {
        Arena { buf: Vec::new() }
    }

    /// An empty arena. The room it is given is the allocator's, and nothing that it
    /// holds depends on it.
    pub fn with_capacity(bytes: usize) -> (r: Self)
        ensures
            r@ == Seq::<u8>::empty(),
    {
        Arena { buf: Vec::with_capacity(bytes) }
    }

    /// Another arena that holds the same.
    pub(crate) fn copy(&self) -> (r: Arena)
        ensures
            r@ == self@,
    {
        Arena { buf: vstd::slice::slice_to_vec(self.buf.as_slice()) }
    }

    /// Appends `name` and returns its `(offset, len)` slot.
    pub fn push(&mut self, name: &[u8]) -> (r: (u32, u16))
        requires
            old(self)@.len() <= u32::MAX,
        ensures
            final(self)@ == old(self)@ + kept_name(name@),
            r.0 == old(self)@.len(),
            r.1 == kept_name(name@).len(),
    {
        let kept: &[u8] = if name.len() > MAX_NAME_LEN {
            vstd::slice::slice_subrange(name, 0, MAX_NAME_LEN)
        } else {
            name
        };
        let off: usize = self.buf.len();
        self.buf.extend_from_slice(kept);
        assert(self.buf@ =~= old(self).buf@ + kept@);
        (off as u32, kept.len() as u16)
    }

    pub fn get(&self, off: u32, len: u16) -> (r: &[u8])
        requires
            off + len <= self@.len(),
        ensures
            r@ == self@.subrange(off as int, off + len),
    {
        let total: usize = self.buf.len();
        assert(off + len <= total);
        let start: usize = off as usize;
        vstd::slice::slice_subrange(self.buf.as_slice(), start, start + len as usize)
    }

    /// The slot as text, or the empty string when it is not UTF-8: names come
    /// from the system as arbitrary bytes.
    pub fn get_str(&self, off: u32, len: u16) -> (r: &str)
        requires
            off + len <= self@.len(),
        ensures
            ({
                let bytes = self@.subrange(off as int, off + len);
                if vstd::utf8::valid_utf8(bytes) {
                    r@ == vstd::utf8::decode_utf8(bytes)
                } else {
                    r@ == Seq::<char>::empty()
                }
            }),
    {
        let bytes: &[u8] = self.get(off, len);
        match str_from_utf8(bytes) {
            Ok(s) => s,
            Err(_) => {
                proof {
                    reveal_strlit("");
                }
                assert(""@ =~= Seq::<char>::empty());
                ""
            },
        }
    }

    pub fn len(&self) -> (r: usize)
        ensures
            r == self@.len(),
    {
        self.buf.len()
    }

    pub fn is_empty(&self) -> (r: bool)
        ensures
            r == (self@.len() == 0),
    {
        self.buf.is_empty()
    }

    /// How many bytes the arena can hold without allocating again: at least
    /// those it holds.
    pub fn capacity(&self) -> (r: usize)
        ensures
            r >= self@.len(),
    {
        vec_capacity(&self.buf)
    }

    pub fn clear(&mut self)
        ensures
            final(self)@ == Seq::<u8>::empty(),
    {
        self.buf.clear();
    }

    /// Gives spare room back to the allocator, as far as it takes it; what the arena
    /// holds stays.
    pub fn shrink_to_fit(&mut self)
        ensures
            final(self)@ == old(self)@,
    {
        vec_shrink(&mut self.buf);
    }
}

/// A later push leaves every earlier slot as it was, and the slot it returns
/// reads back what was kept of the name.
pub proof fn law_push_keeps_slots(before: Seq<u8>, name: Seq<u8>, off: int, len: int)
    requires
        0 <= off,
        0 <= len,
        off + len <= before.len(),
    ensures
        (before + kept_name(name)).subrange(off, off + len) == before.subrange(off, off + len),
        (before + kept_name(name)).subrange(
            before.len() as int,
            (before.len() + kept_name(name).len()) as int,
        ) == kept_name(name),
{
    let after = before + kept_name(name);
    assert(after.subrange(off, off + len) =~= before.subrange(off, off + len));
    assert(after.subrange(before.len() as int, after.len() as int) =~= kept_name(name));
}

/// A name is kept as it is, but for one that is too long, whose beginning is kept.
pub proof fn law_kept_names(name: Seq<u8>)
    ensures
        name.len() <= 65535 ==> kept_name(name) == name,
        name.len() > 65535 ==> kept_name(name).len() == 65535 && forall|i: int|
            0 <= i < 65535 ==> #[trigger] kept_name(name)[i] == name[i],
{
}

} // verus!
