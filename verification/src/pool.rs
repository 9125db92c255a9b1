//! Interning pools: each distinct value is stored once and referred to by its index.

use vstd::prelude::*;
use indexmap::IndexSet;
use std::hash::BuildHasherDefault;
use crate::error::TraceLimitErrorKind;

verus! {

/// The hasher of the pools filled while tracing. Their values come from the traced types (names,
/// schema nodes, lists of indices), not from the traced values, so a fast non-cryptographic hash
/// is fine.
pub type FastState = BuildHasherDefault<FastHasher>;

#[verifier::external_type_specification]
#[verifier::external_body]
#[verifier::reject_recursive_types(T)]
#[verifier::reject_recursive_types(S)]
pub struct ExIndexSet<T, S>(IndexSet<T, S>);

#[verifier::external_type_specification]
#[verifier::external_body]
#[verifier::reject_recursive_types(H)]
pub struct ExBuildHasherDefault<H>(BuildHasherDefault<H>);

/// The multiplier of the FxHash mixing step.
pub const FX_MULTIPLIER: u64 = 0x51_7c_c1_b7_27_22_0a_95;

/// FxHash-style hasher, see [`FastState`].
#[derive(Default, Clone, Copy)]
pub struct FastHasher(pub u64);

/// One mixing step: rotate the state left by 5 bits, xor the word in, multiply (wrapping).
pub open spec fn fx_mix(state: u64, word: u64) -> u64 {
    vstd::wrapping::u64_specs::wrapping_mul(((state << 5u64) | (state >> 59u64)) ^ word, FX_MULTIPLIER)
}

/// The little-endian value of the bytes of `bytes` from `start + k` to `start + 7` (bytes past
/// the end count as zeros).
pub open spec fn le_word(bytes: Seq<u8>, start: int, k: int) -> int
    decreases 8 - k,
{
    if k >= 8 {
        0
    } else {
        let b: int = if 0 <= start + k < bytes.len() { bytes[start + k] as int } else { 0 };
        b + 256 * le_word(bytes, start, k + 1)
    }
}

pub open spec fn pow256(k: int) -> int
    decreases k,
{
    if k <= 0 { 1 } else { 256 * pow256(k - 1) }
}

pub proof fn lemma_le_word_bound(bytes: Seq<u8>, start: int, k: int)
    requires
        0 <= k <= 8,
    ensures
        0 <= le_word(bytes, start, k) < pow256(8 - k),
    decreases 8 - k,
{
    if k < 8 {
        lemma_le_word_bound(bytes, start, k + 1);
    }
}

/// The state after hashing the words of `bytes` from word `w` on, starting from `state`.
pub open spec fn fx_words(state: u64, bytes: Seq<u8>, w: int) -> u64
    decreases bytes.len() + 8 - 8 * w,
{
    if w < 0 || 8 * w >= bytes.len() {
        state
    } else {
        fx_words(fx_mix(state, le_word(bytes, 8 * w, 0) as u64), bytes, w + 1)
    }
}

impl FastHasher {
    /// Mixes one word into the state.
    pub fn mix(&mut self, word: u64)
        ensures
            final(self).0 == fx_mix(old(self).0, word),
    {
        let rotated = (self.0 << 5u64) | (self.0 >> 59u64);
        self.0 = (rotated ^ word).wrapping_mul(FX_MULTIPLIER);
    }

    /// Mixes `bytes` in, as little-endian words of 8 bytes, the last one padded with zeros.
    pub fn mix_bytes(&mut self, bytes: &[u8])
        ensures
            final(self).0 == fx_words(old(self).0, bytes@, 0),
    {
        let len = bytes.len();
        let words = len / 8 + if len % 8 == 0 { 0 } else { 1 };
        let mut w: usize = 0;
        while w < words
            invariant
                words == bytes@.len() / 8 + if bytes@.len() % 8 == 0 { 0int } else { 1int },
                len == bytes@.len(),
                0 <= w <= words,
                fx_words(self.0, bytes@, w as int) == fx_words(old(self).0, bytes@, 0),
            decreases words - w,
        {
            assert(8 * w < len);
            let start = 8 * w;
            let mut word: u64 = 0;
            let mut k: usize = 8;
            proof {
                reveal_with_fuel(pow256, 9);
                assert(pow256(8) == 0x1_0000_0000_0000_0000);
            }
            while k > 0
                invariant
                    0 <= k <= 8,
                    start < bytes@.len(),
                    word as int == le_word(bytes@, start as int, k as int),
                    pow256(8) == 0x1_0000_0000_0000_0000,
                decreases k,
            {
                proof {
                    lemma_le_word_bound(bytes@, start as int, k as int);
                    lemma_pow256_le(8 - k as int, 7);
                }
                k -= 1;
                let b: u64 = if k < bytes.len() - start { bytes[start + k] as u64 } else { 0 };
                word = word * 256 + b;
            }
            proof {
                assert(fx_words(self.0, bytes@, w as int)
                    == fx_words(fx_mix(self.0, word), bytes@, w as int + 1));
            }
            self.mix(word);
            w += 1;
        }
        proof {
            assert(8 * w >= bytes@.len());
        }
    }
}

pub proof fn lemma_pow256_le(a: int, b: int)
    requires
        0 <= a <= b,
    ensures
        0 < pow256(a) <= pow256(b),
    decreases b,
{
    if a < b {
        lemma_pow256_le(a, b - 1);
    } else if a > 0 {
        lemma_pow256_le(a - 1, a - 1);
    }
}

impl std::hash::Hasher for FastHasher {
    fn write(&mut self, bytes: &[u8])
        ensures
            final(self).0 == fx_words(old(self).0, bytes@, 0),
    {
        self.mix_bytes(bytes);
    }

    fn write_u8(&mut self, value: u8)
        ensures
            final(self).0 == fx_mix(old(self).0, value as u64),
    {
        self.mix(value as u64);
    }

    fn write_u16(&mut self, value: u16)
        ensures
            final(self).0 == fx_mix(old(self).0, value as u64),
    {
        self.mix(value as u64);
    }

    fn write_u32(&mut self, value: u32)
        ensures
            final(self).0 == fx_mix(old(self).0, value as u64),
    {
        self.mix(value as u64);
    }

    fn write_u64(&mut self, value: u64)
        ensures
            final(self).0 == fx_mix(old(self).0, value),
    {
        self.mix(value);
    }

    fn write_usize(&mut self, value: usize)
        ensures
            final(self).0 == fx_mix(old(self).0, value as u64),
    {
        self.mix(value as u64);
    }

    fn write_isize(&mut self, value: isize)
        ensures
            final(self).0 == fx_mix(old(self).0, value as u64),
    {
        self.mix(value as u64);
    }

    fn finish(&self) -> (r: u64)
        ensures
            r == self.0,
    {
        self.0
    }
}


/// What the set of names holds, in insertion order.
pub uninterp spec fn name_set_items(set: IndexSet<&'static str, FastState>) -> Seq<Seq<char>>;

/// What the set of index lists holds, in insertion order.
pub uninterp spec fn list_set_items(set: IndexSet<Vec<u32>, FastState>) -> Seq<Seq<u32>>;

/// What `IndexSet::insert_full` does, as its documentation states it: if an equal item is
/// present, the set is unchanged and its index comes back with `false`; otherwise the item is
/// appended and its index comes back with `true`.
pub open spec fn inserted_full<T>(before: Seq<T>, value: T, after: Seq<T>, r: (usize, bool)) -> bool {
    if before.contains(value) {
        &&& after == before
        &&& !r.1
        &&& r.0 < before.len()
        &&& before[r.0 as int] == value
    } else {
        &&& after == before.push(value)
        &&& r.1
        &&& r.0 == before.len()
    }
}

/// `IndexSet::default` for names: an empty set.
#[verifier::external_body]
fn name_set_new() -> (r: IndexSet<&'static str, FastState>)
    ensures
        name_set_items(r) == Seq::<Seq<char>>::empty(),
{
    IndexSet::default()
}

/// `IndexSet::insert_full` for names (`str` equality is equality of the characters).
#[verifier::external_body]
fn name_set_insert_full(set: &mut IndexSet<&'static str, FastState>, value: &'static str) -> (r: (usize, bool))
    ensures
        inserted_full(name_set_items(*old(set)), value@, name_set_items(*final(set)), r),
{
    set.insert_full(value)
}

/// `IndexSet::into_iter` for names, collected in order.
#[verifier::external_body]
fn name_set_into_vec(set: IndexSet<&'static str, FastState>) -> (r: Vec<&'static str>)
    ensures
        r@.len() == name_set_items(set).len(),
        forall|i: int| 0 <= i < r@.len() ==> #[trigger] r@[i]@ == name_set_items(set)[i],
{
    set.into_iter().collect()
}

/// `IndexSet::default` for index lists: an empty set.
#[verifier::external_body]
fn list_set_new() -> (r: IndexSet<Vec<u32>, FastState>)
    ensures
        list_set_items(r) == Seq::<Seq<u32>>::empty(),
{
    IndexSet::default()
}

/// `IndexSet::insert_full` for index lists (`Vec` equality is elementwise).
#[verifier::external_body]
fn list_set_insert_full(set: &mut IndexSet<Vec<u32>, FastState>, value: Vec<u32>) -> (r: (usize, bool))
    ensures
        inserted_full(list_set_items(*old(set)), value@, list_set_items(*final(set)), r),
{
    set.insert_full(value)
}

/// `IndexSet::into_iter` for index lists, collected in order.
#[verifier::external_body]
fn list_set_into_vec(set: IndexSet<Vec<u32>, FastState>) -> (r: Vec<Vec<u32>>)
    ensures
        r@.len() == list_set_items(set).len(),
        forall|i: int| 0 <= i < r@.len() ==> #[trigger] r@[i]@ == list_set_items(set)[i],
{
    set.into_iter().collect()
}

/// A pool of `&'static str` names, indexed from 0.
pub struct NonEmptyPool {
    inner: IndexSet<&'static str, FastState>,
}

impl View for NonEmptyPool {
    type V = Seq<Seq<char>>;

    closed spec fn view(&self) -> Seq<Seq<char>> {
        name_set_items(self.inner)
    }
}

impl NonEmptyPool {
    /// Every name is stored once.
    pub open spec fn wf(&self) -> bool {
        self@.no_duplicates()
    }

    pub fn new() -> (r: Self)
        ensures
            r.wf(),
            r@ == Seq::<Seq<char>>::empty(),
    {
        NonEmptyPool { inner: name_set_new() }
    }

    /// The index of `value`, added if it is new; fails if that index does not fit 32 bits.
    pub fn intern(&mut self, value: &'static str) -> (r: Result<u32, TraceLimitErrorKind>)
        requires
            old(self).wf(),
        ensures
            final(self).wf(),
            old(self)@.contains(value@) ==> final(self)@ == old(self)@,
            !old(self)@.contains(value@) ==> final(self)@ == old(self)@.push(value@),
            match r {
                Ok(i) => i < final(self)@.len() && final(self)@[i as int] == value@,
                Err(kind) => kind == TraceLimitErrorKind::Names && final(self)@.len() > u32::MAX + 1,
            },
            old(self)@.len() <= u32::MAX ==> r is Ok,
            old(self)@.contains(value@) && old(self)@.len() <= u32::MAX + 1 ==> r is Ok,
            !old(self)@.contains(value@) && r is Ok ==> r->Ok_0 == old(self)@.len(),
    {
        let (index, _) = name_set_insert_full(&mut self.inner, value);
        proof {
            if !old(self)@.contains(value@) {
                lemma_push_no_duplicates(old(self)@, value@);
            }
        }
        if index <= 0xffff_ffffusize {
            Ok(index as u32)
        } else {
            Err(TraceLimitErrorKind::Names)
        }
    }

    /// Freezes the pool.
    pub fn into_readonly(self) -> (r: ReadonlyNonEmptyPool<&'static str>)
        ensures
            r.values@.len() == self@.len(),
            forall|i: int| 0 <= i < self@.len() ==> #[trigger] r.values@[i]@ == self@[i],
    {
        ReadonlyNonEmptyPool { values: name_set_into_vec(self.inner) }
    }
}

pub proof fn lemma_push_no_duplicates<T>(s: Seq<T>, x: T)
    requires
        s.no_duplicates(),
        !s.contains(x),
    ensures
        s.push(x).no_duplicates(),
{
    assert forall|i: int, j: int| 0 <= i < s.push(x).len() && 0 <= j < s.push(x).len() && i != j
        implies s.push(x)[i] != s.push(x)[j] by {
        if i < s.len() && j < s.len() {
        } else if i == s.len() {
            assert(s.push(x)[j] == s[j]);
        } else {
            assert(s.push(x)[i] == s[i]);
        }
    }
}

/// A pool of index lists. With `empty_first`, the empty list is not stored and has the index 0,
/// and stored lists are indexed from 1; without, stored lists are indexed from 0.
pub struct Pool {
    inner: IndexSet<Vec<u32>, FastState>,
    empty_first: bool,
    kind: TraceLimitErrorKind,
}

impl View for Pool {
    type V = Seq<Seq<u32>>;

    closed spec fn view(&self) -> Seq<Seq<u32>> {
        list_set_items(self.inner)
    }
}

impl Pool {
    /// Every list is stored once, and the empty one not at all if it has its own index.
    pub closed spec fn wf(&self) -> bool {
        &&& self@.no_duplicates()
        &&& self.empty_first ==> !self@.contains(Seq::<u32>::empty())
    }

    /// Whether the empty list has the index 0 rather than being stored.
    pub closed spec fn spec_empty_first(&self) -> bool {
        self.empty_first
    }

    /// The limit reported when an index does not fit 32 bits.
    pub closed spec fn spec_kind(&self) -> TraceLimitErrorKind {
        self.kind
    }

    pub fn new(empty_first: bool, kind: TraceLimitErrorKind) -> (r: Self)
        ensures
            r.wf(),
            r@ == Seq::<Seq<u32>>::empty(),
            r.spec_empty_first() == empty_first,
            r.spec_kind() == kind,
    {
        Pool { inner: list_set_new(), empty_first, kind }
    }

    /// The index of `value`, added if it is new; fails with the pool's limit if that index does
    /// not fit 32 bits.
    pub fn intern(&mut self, value: Vec<u32>) -> (r: Result<u32, TraceLimitErrorKind>)
        requires
            old(self).wf(),
        ensures
            final(self).wf(),
            final(self).spec_empty_first() == old(self).spec_empty_first(),
            final(self).spec_kind() == old(self).spec_kind(),
            old(self).spec_empty_first() && value@.len() == 0 ==> final(self)@ == old(self)@ && r == Ok::<u32, TraceLimitErrorKind>(0),
            !(old(self).spec_empty_first() && value@.len() == 0) ==> {
                &&& old(self)@.contains(value@) ==> final(self)@ == old(self)@
                &&& !old(self)@.contains(value@) ==> final(self)@ == old(self)@.push(value@)
                &&& match r {
                    Ok(i) => {
                        let k = if old(self).spec_empty_first() { i - 1 } else { i as int };
                        &&& 0 <= k < final(self)@.len()
                        &&& final(self)@[k] == value@
                        &&& !old(self)@.contains(value@) ==> k == old(self)@.len()
                    },
                    Err(kind) => kind == old(self).spec_kind(),
                }
            },
            old(self)@.len() < u32::MAX ==> r is Ok,
            forall|k: int| 0 <= k < old(self)@.len() && #[trigger] old(self)@[k] == value@ && k < u32::MAX
                ==> final(self)@ == old(self)@
                && r == Ok::<u32, TraceLimitErrorKind>((if old(self).spec_empty_first() { k + 1 } else { k }) as u32),
    {
        if self.empty_first && value.len() == 0 {
            proof {
                assert forall|k: int| 0 <= k < old(self)@.len() && #[trigger] old(self)@[k] == value@ implies false by {
                    assert(value@ =~= Seq::<u32>::empty());
                    assert(old(self)@.contains(Seq::<u32>::empty()));
                }
            }
            return Ok(0);
        }
        let ghost v = value@;
        let (index, _) = list_set_insert_full(&mut self.inner, value);
        proof {
            assert forall|k: int| 0 <= k < old(self)@.len() && #[trigger] old(self)@[k] == v implies index == k by {
                assert(old(self)@.contains(v));
                assert(old(self)@[index as int] == v);
            }
            if !old(self)@.contains(v) {
                lemma_push_no_duplicates(old(self)@, v);
                if self.empty_first {
                    assert forall|k: int| 0 <= k < self@.len() implies self@[k] != Seq::<u32>::empty() by {
                        if k < old(self)@.len() {
                            assert(self@[k] == old(self)@[k]);
                        } else {
                            assert(v.len() > 0);
                        }
                    }
                }
            }
        }
        if self.empty_first {
            if index < 0xffff_ffffusize {
                Ok((index + 1) as u32)
            } else {
                Err(self.kind)
            }
        } else if index <= 0xffff_ffffusize {
            Ok(index as u32)
        } else {
            Err(self.kind)
        }
    }

    /// What a well-formed pool keeps: each list once, and the empty one not at all where it has
    /// its own index.
    pub proof fn lemma_wf(&self)
        requires
            self.wf(),
        ensures
            self@.no_duplicates(),
            self.spec_empty_first() ==> !self@.contains(Seq::<u32>::empty()),
    {
    }

    /// Freezes a pool whose empty list has the index 0.
    pub fn into_readonly(self) -> (r: ReadonlyPool<Vec<u32>>)
        requires
            self.spec_empty_first(),
        ensures
            r.empty@ == Seq::<u32>::empty(),
            r.values@.len() == self@.len(),
            forall|i: int| 0 <= i < self@.len() ==> #[trigger] r.values@[i]@ == self@[i],
    {
        ReadonlyPool { values: list_set_into_vec(self.inner), empty: Vec::new() }
    }

    /// Freezes a pool whose lists are all stored.
    pub fn into_readonly_nonempty(self) -> (r: ReadonlyNonEmptyPool<Vec<u32>>)
        ensures
            r.values@.len() == self@.len(),
            forall|i: int| 0 <= i < self@.len() ==> #[trigger] r.values@[i]@ == self@[i],
    {
        ReadonlyNonEmptyPool { values: list_set_into_vec(self.inner) }
    }
}

/// A frozen pool whose index 0 is the empty value and whose stored values start at index 1.
pub struct ReadonlyPool<T> {
    pub values: Vec<T>,
    pub empty: T,
}

impl<T> ReadonlyPool<T> {
    /// The value at `index`: the empty value for 0, else a stored one if there is one.
    pub fn get(&self, index: u32) -> (r: Option<&T>)
        ensures
            index == 0 ==> r == Some(&self.empty),
            index > 0 ==> (r is Some <==> index - 1 < self.values@.len()),
            index > 0 && index - 1 < self.values@.len() ==> r == Some(&self.values@[index - 1]),
    {
        if index == 0 {
            Some(&self.empty)
        } else if ((index - 1) as usize) < self.values.len() {
            Some(&self.values[(index - 1) as usize])
        } else {
            None
        }
    }

    /// The stored values, in index order starting at index 1 (index 0 is the empty value).
    pub fn values(&self) -> (r: &[T])
        ensures
            r@ == self.values@,
    {
        self.values.as_slice()
    }
}

/// A frozen pool whose values start at index 0.
pub struct ReadonlyNonEmptyPool<T> {
    pub values: Vec<T>,
}

impl<T> ReadonlyNonEmptyPool<T> {
    /// The value at `index`, if there is one.
    pub fn get(&self, index: u32) -> (r: Option<&T>)
        ensures
            r is Some <==> index < self.values@.len(),
            index < self.values@.len() ==> r == Some(&self.values@[index as int]),
    {
        if (index as usize) < self.values.len() {
            Some(&self.values[index as usize])
        } else {
            None
        }
    }

    /// The number of values.
    pub fn len(&self) -> (r: usize)
        ensures
            r == self.values@.len(),
    {
        self.values.len()
    }
}

} // verus!
