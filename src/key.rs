use vstd::prelude::*;

verus! {

/// A value that can index the cache: cheap to copy, compared by its view.
pub trait CacheKey: Copy + View {
    /// Whether two keys denote the same input.
    fn same_key(&self, other: &Self) -> (r: bool)
        ensures
            r == (self@ == other@),
    ;
}

impl CacheKey for bool {
    fn same_key(&self, other: &Self) -> (r: bool) {
        *self == *other
    }
}

impl CacheKey for char {
    fn same_key(&self, other: &Self) -> (r: bool) {
        *self == *other
    }
}

impl CacheKey for i32 {
    fn same_key(&self, other: &Self) -> (r: bool) {
        *self == *other
    }
}

impl CacheKey for u8 {
    fn same_key(&self, other: &Self) -> (r: bool) {
        *self == *other
    }
}

impl CacheKey for u16 {
    fn same_key(&self, other: &Self) -> (r: bool) {
        *self == *other
    }
}

impl CacheKey for u32 {
    fn same_key(&self, other: &Self) -> (r: bool) {
        *self == *other
    }
}

impl CacheKey for u64 {
    fn same_key(&self, other: &Self) -> (r: bool) {
        *self == *other
    }
}

impl CacheKey for u128 {
    fn same_key(&self, other: &Self) -> (r: bool) {
        *self == *other
    }
}

impl CacheKey for usize {
    fn same_key(&self, other: &Self) -> (r: bool) {
        *self == *other
    }
}

impl CacheKey for i8 {
    fn same_key(&self, other: &Self) -> (r: bool) {
        *self == *other
    }
}

impl CacheKey for i16 {
    fn same_key(&self, other: &Self) -> (r: bool) {
        *self == *other
    }
}

impl CacheKey for i64 {
    fn same_key(&self, other: &Self) -> (r: bool) {
        *self == *other
    }
}

impl CacheKey for i128 {
    fn same_key(&self, other: &Self) -> (r: bool) {
        *self == *other
    }
}

impl CacheKey for isize {
    fn same_key(&self, other: &Self) -> (r: bool) {
        *self == *other
    }
}

impl<'a> CacheKey for &'a str {
    fn same_key(&self, other: &Self) -> (r: bool) {
        let a: &[u8] = (*self).as_bytes();
        let b: &[u8] = (*other).as_bytes();
        assert(a@ == vstd::utf8::encode_utf8(self@));
        assert(b@ == vstd::utf8::encode_utf8(other@));
        if a.len() != b.len() {
            return false;
        }
        let mut i: usize = 0;
        while i < a.len()
            invariant
                a@ == vstd::utf8::encode_utf8(self@),
                b@ == vstd::utf8::encode_utf8(other@),
                a.len() == b.len(),
                i <= a.len(),
                forall|j: int| 0 <= j < i ==> a@[j] == b@[j],
            decreases a.len() - i,
        {
            if a[i] != b[i] {
                assert(a@ != b@);
                return false;
            }
            i = i + 1;
        }
        assert(a@ =~= b@);
        proof {
            vstd::utf8::encode_utf8_decode_utf8(self@);
            vstd::utf8::encode_utf8_decode_utf8(other@);
        }
        true
    }
}

} // verus!
