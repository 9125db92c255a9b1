//! Which fields of a struct with skippable fields a trace serialized, and the discriminant that
//! says so.

use vstd::prelude::*;
use crate::trace::le_value;

verus! {

/// The serialized fields of a struct that has skippable fields.
pub enum Presence<'a> {
    /// No field was skipped: all of this many.
    All(usize),
    /// The indices of the serialized fields, as four little-endian bytes each, from the trace.
    Listed(&'a [u8]),
}

/// The indices that the full four-byte chunks of `bytes` hold.
pub open spec fn field_indices(bytes: Seq<u8>) -> Seq<u32> {
    Seq::new(bytes.len() / 4, |i: int| le_value(bytes.subrange(4 * i, 4 * i + 4)) as u32)
}

/// The serialized fields that `p` stands for, in order.
pub open spec fn presence_fields(p: Presence) -> Seq<u32> {
    match p {
        Presence::All(n) => Seq::new(n as nat, |i: int| i as u32),
        Presence::Listed(listed) => field_indices(listed@),
    }
}

/// The indices held by the full four-byte chunks of `presence`, in order.
pub fn iter_field_indices(presence: &[u8]) -> (r: Vec<u32>)
    ensures
        r@ == field_indices(presence@),
{
    let mut r: Vec<u32> = Vec::new();
    let len = presence.len();
    let n = len / 4;
    let mut i: usize = 0;
    while i < n
        invariant
            0 <= i <= n,
            n == presence@.len() / 4,
            len == presence@.len(),
            r@.len() == i,
            forall|k: int| 0 <= k < i ==> #[trigger] r@[k] == field_indices(presence@)[k],
        decreases n - i,
    {
        assert(4 * i + 4 <= len) by (nonlinear_arith)
            requires
                i < n,
                n == len / 4,
        ;
        let value = crate::trace::read_u32(presence, 4 * i);
        r.push(value);
        i += 1;
    }
    assert(r@ =~= field_indices(presence@));
    r
}

impl<'a> Presence<'a> {
    /// The number of serialized fields.
    pub fn len(&self) -> (r: usize)
        ensures
            r == presence_fields(*self).len(),
    {
        match self {
            Presence::All(length) => *length,
            Presence::Listed(listed) => listed.len() / 4,
        }
    }

    /// The indices of the serialized fields, in order.
    pub fn fields(&self) -> (r: Vec<u32>)
        requires
            *self matches Presence::All(n) ==> n <= u32::MAX + 1,
        ensures
            r@ == presence_fields(*self),
    {
        match self {
            Presence::All(length) => {
                let mut r: Vec<u32> = Vec::new();
                let mut i: usize = 0;
                while i < *length
                    invariant
                        0 <= i <= *length,
                        *length <= u32::MAX + 1,
                        r@.len() == i,
                        forall|k: int| 0 <= k < i ==> #[trigger] r@[k] == k as u32,
                    decreases *length - i,
                {
                    r.push(i as u32);
                    i += 1;
                }
                assert(r@ =~= presence_fields(*self));
                r
            },
            Presence::Listed(listed) => iter_field_indices(listed),
        }
    }
}

/// The discriminant of a struct with the skippable fields `skip[k..]` whose serialized fields are
/// `present`: its lowest bit is set when `skip[k]` was serialized, the next when `skip[k + 1]`
/// was, and so on.
pub open spec fn presence_bits(skip: Seq<u32>, present: Seq<u32>, k: int) -> nat
    decreases skip.len() - k,
{
    if k < 0 || k >= skip.len() {
        0
    } else {
        (if present.contains(skip[k]) { 1nat } else { 0nat }) + 2 * presence_bits(skip, present, k + 1)
    }
}

pub proof fn lemma_presence_bits_bound(skip: Seq<u32>, present: Seq<u32>, k: int)
    requires
        0 <= k <= skip.len(),
    ensures
        presence_bits(skip, present, k) < vstd::arithmetic::power2::pow2((skip.len() - k) as nat),
    decreases skip.len() - k,
{
    if k < skip.len() {
        lemma_presence_bits_bound(skip, present, k + 1);
        vstd::arithmetic::power2::lemma_pow2_unfold((skip.len() - k) as nat);
    } else {
        vstd::arithmetic::power2::lemma2_to64();
    }
}

/// One step of the walk that looks for the skippable field `s` among the serialized fields
/// `present[..p]`, from the end: the fields above `s` are passed over; whether the next one is
/// `s`, and where the walk goes on.
pub open spec fn presence_step(s: u32, present: Seq<u32>, p: int) -> (bool, int)
    decreases p,
{
    if p <= 0 || p > present.len() {
        (false, if p <= 0 { 0 } else { p })
    } else if present[p - 1] > s {
        presence_step(s, present, p - 1)
    } else if present[p - 1] == s {
        (true, p - 1)
    } else {
        (false, p)
    }
}

/// The walk over the skippable fields `skip[k..]`, from the last one down, against the
/// serialized fields `present` from the end: the bits it sets (bit `i - k` where it found
/// `skip[i]`) and where it stands after them.
pub open spec fn presence_walk(skip: Seq<u32>, present: Seq<u32>, k: int) -> (nat, int)
    decreases skip.len() - k,
{
    if k < 0 || k >= skip.len() {
        (0, present.len() as int)
    } else {
        let (bits, p) = presence_walk(skip, present, k + 1);
        let (found, next) = presence_step(skip[k], present, p);
        (2 * bits + if found { 1nat } else { 0nat }, next)
    }
}

/// The discriminant of a struct with the skippable fields `skip` whose serialized fields are
/// `present`: the bits of the walk, as far as 64 bits hold them. For sorted lists of at most 64
/// skippable fields, bit `i` is set exactly when `skip[i]` was serialized (see
/// [`discriminant_from_presence`]).
pub open spec fn presence_discriminant(skip: Seq<u32>, present: Seq<u32>) -> nat {
    presence_walk(skip, present, 0).0 % 0x1_0000_0000_0000_0000
}

/// For sorted serialized fields of which those from `p` on are above `s`, the step finds `s`
/// exactly when it was serialized, and stops where the fields below `s` end.
proof fn lemma_presence_step_sorted(s: u32, present: Seq<u32>, p: int)
    requires
        crate::sorted::strictly_sorted(present),
        0 <= p <= present.len(),
        forall|j: int| p <= j < present.len() ==> #[trigger] present[j] > s,
    ensures
        presence_step(s, present, p).0 == present.contains(s),
        0 <= presence_step(s, present, p).1 <= p,
        forall|j: int| presence_step(s, present, p).1 <= j < present.len() ==> #[trigger] present[j] >= s,
        forall|j: int| 0 <= j < presence_step(s, present, p).1 ==> #[trigger] present[j] < s,
    decreases p,
{
    if p == 0 {
        if present.contains(s) {
            let j = choose|j: int| 0 <= j < present.len() && present[j] == s;
            assert(present[j] > s);
        }
    } else if present[p - 1] > s {
        lemma_presence_step_sorted(s, present, p - 1);
    } else if present[p - 1] == s {
        assert(present.contains(s)) by {
            assert(present[p - 1] == s);
        }
        assert forall|j: int| 0 <= j < p - 1 implies #[trigger] present[j] < s by {
            assert(present[j] < present[p - 1]);
        }
    } else {
        assert forall|j: int| 0 <= j < p implies #[trigger] present[j] < s by {
            if j < p - 1 {
                assert(present[j] < present[p - 1]);
            }
        }
        if present.contains(s) {
            let j = choose|j: int| 0 <= j < present.len() && present[j] == s;
            if j < p {
                assert(present[j] < s);
            } else {
                assert(present[j] > s);
            }
        }
    }
}

/// For sorted lists, the walk over `skip[k..]` sets the bits that [`presence_bits`] does, and
/// stops where the serialized fields below `skip[k]` end.
proof fn lemma_presence_walk_sorted(skip: Seq<u32>, present: Seq<u32>, k: int)
    requires
        crate::sorted::strictly_sorted(skip),
        crate::sorted::strictly_sorted(present),
        0 <= k <= skip.len(),
    ensures
        presence_walk(skip, present, k).0 == presence_bits(skip, present, k),
        0 <= presence_walk(skip, present, k).1 <= present.len(),
        k == skip.len() ==> presence_walk(skip, present, k).1 == present.len(),
        k < skip.len() ==> forall|j: int| presence_walk(skip, present, k).1 <= j < present.len()
            ==> #[trigger] present[j] >= skip[k],
    decreases skip.len() - k,
{
    if k < skip.len() {
        lemma_presence_walk_sorted(skip, present, k + 1);
        let p = presence_walk(skip, present, k + 1).1;
        assert forall|j: int| p <= j < present.len() implies #[trigger] present[j] > skip[k] by {
            if k + 1 < skip.len() {
                assert(skip[k] < skip[k + 1]);
            }
        }
        lemma_presence_step_sorted(skip[k], present, p);
    }
}

/// For sorted lists of at most 64 skippable fields, bit `i` of the discriminant is set exactly
/// when `skip[i]` was serialized.
pub proof fn law_presence_discriminant_sorted(skip: Seq<u32>, present: Seq<u32>)
    requires
        skip.len() <= 64,
        crate::sorted::strictly_sorted(skip),
        crate::sorted::strictly_sorted(present),
    ensures
        presence_discriminant(skip, present) == presence_bits(skip, present, 0),
{
    lemma_presence_walk_sorted(skip, present, 0);
    lemma_presence_bits_bound(skip, present, 0);
    vstd::arithmetic::power2::lemma2_to64();
    vstd::arithmetic::power2::lemma2_to64_rest();
    if skip.len() < 64 {
        vstd::arithmetic::power2::lemma_pow2_strictly_increases(skip.len(), 64);
    }
    vstd::arithmetic::div_mod::lemma_small_mod(presence_bits(skip, present, 0), 0x1_0000_0000_0000_0000);
}

/// The discriminant of a struct with the skippable fields `skip_list` whose serialized fields are
/// the ones of `presence`: for sorted lists, bit `i` is set when `skip_list[i]` was serialized.
pub fn discriminant_from_presence(skip_list: &[u32], presence: &Presence) -> (r: u64)
    requires
        *presence matches Presence::All(n) ==> n <= u32::MAX + 1,
    ensures
        r == presence_discriminant(skip_list@, presence_fields(*presence)),
        skip_list@.len() <= 64 && crate::sorted::strictly_sorted(skip_list@)
            && crate::sorted::strictly_sorted(presence_fields(*presence))
            ==> r == presence_bits(skip_list@, presence_fields(*presence), 0),
{
    let present = presence.fields();
    let ghost skip = skip_list@;
    let mut discriminant: u64 = 0;
    let mut p: usize = present.len();
    let mut k: usize = skip_list.len();
    while k > 0
        invariant
            0 <= k <= skip.len(),
            skip == skip_list@,
            0 <= p <= present@.len(),
            discriminant == presence_walk(skip, present@, k as int).0 % 0x1_0000_0000_0000_0000,
            p == presence_walk(skip, present@, k as int).1,
        decreases k,
    {
        k = k - 1;
        let skipped = skip_list[k];
        let ghost before = discriminant;
        let ghost walked = presence_walk(skip, present@, k + 1);
        let ghost step = presence_step(skipped, present@, p as int);
        proof {
            assert(before << 1u64 == (2 * before) % 0x1_0000_0000_0000_0000) by (bit_vector);
            assert((before << 1u64) % 2 == 0) by (bit_vector);
            vstd::arithmetic::div_mod::lemma_mul_mod_noop_right(2, walked.0 as int, 0x1_0000_0000_0000_0000);
        }
        discriminant = discriminant << 1u64;
        let ghost shifted = discriminant;
        // Pass over the serialized fields above `skipped`; the next one may be it.
        loop
            invariant_except_break
                discriminant == shifted,
                presence_step(skipped, present@, p as int) == step,
            invariant
                0 <= p <= present@.len(),
                shifted % 2 == 0,
            ensures
                discriminant == shifted + if step.0 { 1int } else { 0int },
                p == step.1,
            decreases p,
        {
            if p == 0 {
                break;
            }
            let field = present[p - 1];
            if field > skipped {
                p -= 1;
                continue;
            }
            if field == skipped {
                proof {
                    let d = discriminant;
                    assert(d | 1u64 == d + 1) by (bit_vector)
                        requires
                            d % 2 == 0,
                    ;
                }
                discriminant = discriminant | 1u64;
                p -= 1;
            }
            break;
        }
        proof {
            let b: int = if step.0 { 1 } else { 0 };
            vstd::arithmetic::div_mod::lemma_add_mod_noop_right(b, (2 * walked.0) as int, 0x1_0000_0000_0000_0000);
            vstd::arithmetic::div_mod::lemma_small_mod((b + shifted) as nat, 0x1_0000_0000_0000_0000);
            assert(presence_walk(skip, present@, k as int) == ((2 * walked.0 + b) as nat, step.1));
        }
    }
    proof {
        if skip.len() <= 64 && crate::sorted::strictly_sorted(skip) && crate::sorted::strictly_sorted(present@) {
            law_presence_discriminant_sorted(skip, present@);
        }
    }
    discriminant
}

} // verus!
