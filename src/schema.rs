//! The bucket schema: what a declaration of buckets says, checked and put in
//! the order in which an aggregate scans its buckets.
//!
//! A schema names buckets as `Bucket<SlotSize<s>, NumSlots<k>, Align<a>>`,
//! with the parameters in any order and `Align` defaulting to 1. The syntax
//! tree is read elsewhere; this module receives each bucket's type name and
//! its parameters as names and integer values.
use vstd::prelude::*;
use crate::layout::{is_power_of_two, is_power_of_two_exec};

verus! {

broadcast use {
    vstd::seq_lib::to_multiset_update,
    vstd::seq_lib::to_multiset_contains,
    vstd::multiset::group_multiset_axioms,
};

/// The checked parameters of one bucket.
#[derive(Clone, Copy, Debug, PartialEq, Eq, Structural)]
pub struct BucketDescriptor {
    pub slot_size: usize,
    pub num_slots: usize,
    pub align: usize,
}

/// Why a bucket declaration was rejected.
#[derive(Clone, Copy, Debug, PartialEq, Eq, Structural)]
pub enum SchemaError {
    /// The field's type is not `Bucket<...>`.
    NotABucket,
    /// A parameter other than `SlotSize`, `NumSlots` or `Align`.
    UnknownParameter,
    /// A parameter given twice.
    DuplicateParameter,
    /// A parameter whose value is not an integer literal that fits a `usize`.
    NotAnInteger,
    /// No `SlotSize` was given.
    MissingSlotSize,
    /// No `NumSlots` was given.
    MissingNumSlots,
    /// `SlotSize<0>`: a slot must hold at least one byte.
    ZeroSlotSize,
    /// An `Align` that is not a power of two.
    AlignNotPowerOfTwo,
}

/// One parameter as written: its name and, when it is an integer literal
/// that fits a `usize`, its value.
#[derive(Debug)]
pub struct SchemaParam {
    pub name: String,
    pub value: Option<usize>,
}

/// Parameters read so far: slot size, slot count, alignment.
pub type ParamsSeen = (Option<usize>, Option<usize>, Option<usize>);

/// Number of 32-slot segments that hold `num_slots` slots.
pub open spec fn num_segments_for(num_slots: nat) -> nat {
    (num_slots + 31) / 32
}

/// Reads one more parameter. Each parameter may be given once, so that
/// their order does not matter.
pub open spec fn param_step(seen: ParamsSeen, name: Seq<char>, value: Option<usize>) -> Result<
    ParamsSeen,
    SchemaError,
> {
    if (name == "SlotSize"@ && seen.0 is Some) || (name == "NumSlots"@ && seen.1 is Some) || (
    name == "Align"@ && seen.2 is Some) {
        Err(SchemaError::DuplicateParameter)
    } else if name == "SlotSize"@ || name == "NumSlots"@ || name == "Align"@ {
        match value {
            None => Err(SchemaError::NotAnInteger),
            Some(v) => if name == "SlotSize"@ {
                Ok((Some(v), seen.1, seen.2))
            } else if name == "NumSlots"@ {
                Ok((seen.0, Some(v), seen.2))
            } else {
                Ok((seen.0, seen.1, Some(v)))
            },
        }
    } else {
        Err(SchemaError::UnknownParameter)
    }
}

/// Reads the parameters in order; the first bad one decides the error.
pub open spec fn read_params(params: Seq<SchemaParam>) -> Result<ParamsSeen, SchemaError>
    decreases params.len(),
{
    if params.len() == 0 {
        Ok((None, None, None))
    } else {
        match read_params(params.drop_last()) {
            Ok(seen) => param_step(seen, params.last().name@, params.last().value),
            Err(e) => Err(e),
        }
    }
}

/// The descriptor a bucket declaration stands for, or why it is rejected.
pub open spec fn descriptor_of(field_type: Seq<char>, params: Seq<SchemaParam>) -> Result<
    BucketDescriptor,
    SchemaError,
> {
    if field_type != "Bucket"@ {
        Err(SchemaError::NotABucket)
    } else {
        match read_params(params) {
            Err(e) => Err(e),
            Ok((s, n, a)) => match (s, n) {
                (None, _) => Err(SchemaError::MissingSlotSize),
                (Some(_), None) => Err(SchemaError::MissingNumSlots),
                (Some(slot_size), Some(num_slots)) => {
                    let align = match a {
                        Some(v) => v,
                        None => 1usize,
                    };
                    if slot_size == 0 {
                        Err(SchemaError::ZeroSlotSize)
                    } else if !is_power_of_two(align as nat) {
                        Err(SchemaError::AlignNotPowerOfTwo)
                    } else {
                        Ok(BucketDescriptor { slot_size, num_slots, align })
                    }
                },
            },
        }
    }
}

/// Once reading fails, further parameters do not change the error.
proof fn lemma_read_params_error(params: Seq<SchemaParam>, i: int)
    requires
        0 <= i <= params.len(),
        read_params(params.subrange(0, i)) is Err,
    ensures
        read_params(params) == read_params(params.subrange(0, i)),
    decreases params.len() - i,
{
    if i == params.len() {
        assert(params.subrange(0, i) =~= params);
    } else {
        assert(params.subrange(0, i + 1).drop_last() =~= params.subrange(0, i));
        lemma_read_params_error(params, i + 1);
    }
}

/// Whether `a` comes no later than `b` when buckets are sorted by slot size,
/// then alignment.
pub open spec fn key_le(a: BucketDescriptor, b: BucketDescriptor) -> bool {
    a.slot_size < b.slot_size || (a.slot_size == b.slot_size && a.align <= b.align)
}

/// Whether a bucket has slot size and alignment `key`.
pub open spec fn has_key(key: (usize, usize)) -> spec_fn(BucketDescriptor) -> bool {
    |d: BucketDescriptor| d.slot_size == key.0 && d.align == key.1
}

/// Swapping two neighbours of different keys keeps, for every key, the
/// buckets of that key in the same order.
proof fn lemma_swap_keeps_key_order(s: Seq<BucketDescriptor>, j: int, key: (usize, usize))
    requires
        0 < j < s.len(),
        !(s[j - 1].slot_size == s[j].slot_size && s[j - 1].align == s[j].align),
    ensures
        s.update(j - 1, s[j]).update(j, s[j - 1]).filter(has_key(key)) == s.filter(has_key(key)),
{
    let p = has_key(key);
    let t = s.update(j - 1, s[j]).update(j, s[j - 1]);
    let a = s.subrange(0, j - 1);
    let c = s.subrange(j + 1, s.len() as int);
    let m = seq![s[j - 1], s[j]];
    let m2 = seq![s[j], s[j - 1]];
    assert(s =~= a + m + c);
    assert(t =~= a + m2 + c);
    Seq::filter_distributes_over_add(a + m, c, p);
    Seq::filter_distributes_over_add(a, m, p);
    Seq::filter_distributes_over_add(a + m2, c, p);
    Seq::filter_distributes_over_add(a, m2, p);
    let (x, y) = (s[j - 1], s[j]);
    let e = Seq::<BucketDescriptor>::empty();
    reveal_with_fuel(Seq::filter, 3);
    assert(e.filter(p) == e);
    assert(m.drop_last() =~= seq![x]);
    assert(m2.drop_last() =~= seq![y]);
    assert(seq![x].drop_last() =~= e);
    assert(seq![y].drop_last() =~= e);
    assert(seq![x].last() == x && seq![x].len() == 1);
    assert(seq![y].last() == y && seq![y].len() == 1);
    assert(seq![x].drop_last().filter(p) == e);
    assert(seq![y].drop_last().filter(p) == e);
    assert(seq![x].filter(p) == if p(x) { e.push(x) } else { e });
    assert(seq![y].filter(p) == if p(y) { e.push(y) } else { e });
    assert(m.filter(p) == if p(y) { seq![x].filter(p).push(y) } else { seq![x].filter(p) });
    assert(m2.filter(p) == if p(x) { seq![y].filter(p).push(x) } else { seq![y].filter(p) });
    assert(!(p(x) && p(y)));
    assert(m.filter(p) =~= m2.filter(p));
}

/// Buckets in ascending (slot size, alignment) order.
pub open spec fn sorted_by_key(s: Seq<BucketDescriptor>) -> bool {
    forall|i: int, j: int| 0 <= i < j < s.len() ==> key_le(#[trigger] s[i], #[trigger] s[j])
}

fn is_named(name: &String, expected: &str) -> (r: bool)
    ensures
        r == (name@ == expected@),
{
    let owned = expected.to_owned();
    name.eq(&owned)
}

impl BucketDescriptor {
    /// Whether the descriptor can be laid out: slots of at least one byte and
    /// a power-of-two alignment.
    pub open spec fn is_valid(self) -> bool {
        self.slot_size > 0 && is_power_of_two(self.align as nat)
    }

    /// Number of 32-slot segments: the slot count rounded up to whole segments.
    pub fn num_segments(&self) -> (r: usize)
        ensures
            r == num_segments_for(self.num_slots as nat),
    {
        self.num_slots / 32 + if self.num_slots % 32 == 0 {
            0
        } else {
            1
        }
    }

    /// Checks a bucket declaration: its type name and its parameters in the
    /// order written.
    pub fn from_params(field_type: &str, params: &Vec<SchemaParam>) -> (r: Result<
        BucketDescriptor,
        SchemaError,
    >)
        ensures
            r == descriptor_of(field_type@, params@),
            r matches Ok(d) ==> d.is_valid(),
    {
        let bucket_name = field_type.to_owned();
        if !is_named(&bucket_name, "Bucket") {
            return Err(SchemaError::NotABucket);
        }
        let mut slot_size: Option<usize> = None;
        let mut num_slots: Option<usize> = None;
        let mut align: Option<usize> = None;
        let mut i: usize = 0;
        while i < params.len()
            invariant
                i <= params.len(),
                field_type@ == "Bucket"@,
                read_params(params@.subrange(0, i as int)) == Ok::<ParamsSeen, SchemaError>(
                    (slot_size, num_slots, align),
                ),
            decreases params.len() - i,
        {
            let p = &params[i];
            proof {
                assert(params@.subrange(0, i + 1).drop_last() =~= params@.subrange(0, i as int));
                assert(params@.subrange(0, i + 1).last() == params@[i as int]);
            }
            let is_slot_size = is_named(&p.name, "SlotSize");
            let is_num_slots = is_named(&p.name, "NumSlots");
            let is_align = is_named(&p.name, "Align");
            if (is_slot_size && slot_size.is_some()) || (is_num_slots && num_slots.is_some()) || (
            is_align && align.is_some()) {
                proof {
                    let sub = params@.subrange(0, i + 1);
                    assert(read_params(sub) == param_step((slot_size, num_slots, align), p.name@, p.value));
                    lemma_read_params_error(params@, i + 1);
                }
                return Err(SchemaError::DuplicateParameter);
            }
            if !(is_slot_size || is_num_slots || is_align) {
                proof {
                    let sub = params@.subrange(0, i + 1);
                    assert(p.name@ != "SlotSize"@ && p.name@ != "NumSlots"@ && p.name@ != "Align"@);
                    assert(read_params(sub) == param_step((slot_size, num_slots, align), p.name@, p.value));
                    lemma_read_params_error(params@, i + 1);
                }
                return Err(SchemaError::UnknownParameter);
            }
            match p.value {
                None => {
                    proof {
                        let sub = params@.subrange(0, i + 1);
                        assert(read_params(sub) == param_step((slot_size, num_slots, align), p.name@, p.value));
                        lemma_read_params_error(params@, i + 1);
                    }
                    return Err(SchemaError::NotAnInteger);
                },
                Some(v) => {
                    if is_slot_size {
                        slot_size = Some(v);
                    } else if is_num_slots {
                        num_slots = Some(v);
                    } else {
                        align = Some(v);
                    }
                },
            }
            i = i + 1;
        }
        proof {
            assert(params@.subrange(0, params.len() as int) =~= params@);
        }
        match (slot_size, num_slots) {
            (None, _) => Err(SchemaError::MissingSlotSize),
            (Some(_), None) => Err(SchemaError::MissingNumSlots),
            (Some(slot_size), Some(num_slots)) => {
                let align = match align {
                    Some(v) => v,
                    None => 1,
                };
                if slot_size == 0 {
                    Err(SchemaError::ZeroSlotSize)
                } else if !is_power_of_two_exec(align) {
                    Err(SchemaError::AlignNotPowerOfTwo)
                } else {
                    Ok(BucketDescriptor { slot_size, num_slots, align })
                }
            },
        }
    }
}

/// Slot size parameter of a bucket declared as a type.
pub struct SlotSize<const N: usize>;

/// Slot count parameter of a bucket declared as a type.
pub struct NumSlots<const N: usize>;

/// Alignment parameter of a bucket declared as a type.
pub struct Align<const N: usize>;

/// A bucket declared as a type: `Bucket<SlotSize<2>, NumSlots<128>, Align<2>>`.
pub struct Bucket<S, N, A = Align<1>> {
    slot_size: core::marker::PhantomData<S>,
    num_slots: core::marker::PhantomData<N>,
    align: core::marker::PhantomData<A>,
}

impl<const S: usize, const K: usize, const A: usize> Bucket<SlotSize<S>, NumSlots<K>, Align<A>> {
    /// The checked descriptor of this bucket type.
    pub fn descriptor() -> (r: Result<BucketDescriptor, SchemaError>)
        ensures
            r == (if S == 0 {
                Err(SchemaError::ZeroSlotSize)
            } else if !is_power_of_two(A as nat) {
                Err(SchemaError::AlignNotPowerOfTwo)
            } else {
                Ok(BucketDescriptor { slot_size: S, num_slots: K, align: A })
            }),
    {
        if S == 0 {
            Err(SchemaError::ZeroSlotSize)
        } else if !is_power_of_two_exec(A) {
            Err(SchemaError::AlignNotPowerOfTwo)
        } else {
            Ok(BucketDescriptor { slot_size: S, num_slots: K, align: A })
        }
    }
}

/// Whether bucket `a` sorts no later than bucket `b`.
fn key_le_exec(a: &BucketDescriptor, b: &BucketDescriptor) -> (r: bool)
    ensures
        r == key_le(*a, *b),
{
    a.slot_size < b.slot_size || (a.slot_size == b.slot_size && a.align <= b.align)
}

/// Sorts buckets by slot size, then alignment, so that the first bucket a
/// request fits is the smallest that fits. Keeps every bucket, and buckets
/// with the same slot size and alignment keep their declared order.
pub fn sort_buckets(buckets: &mut Vec<BucketDescriptor>)
    ensures
        sorted_by_key(final(buckets)@),
        final(buckets)@.to_multiset() == old(buckets)@.to_multiset(),
        forall|key: (usize, usize)|
            #[trigger] final(buckets)@.filter(has_key(key)) == old(buckets)@.filter(has_key(key)),
{
    let n = buckets.len();
    let mut i: usize = 1;
    if n == 0 {
        return ;
    }
    while i < n
        invariant
            1 <= i <= n,
            buckets.len() == n,
            sorted_by_key(buckets@.subrange(0, i as int)),
            buckets@.to_multiset() == old(buckets)@.to_multiset(),
            forall|key: (usize, usize)|
                #[trigger] buckets@.filter(has_key(key)) == old(buckets)@.filter(has_key(key)),
        decreases n - i,
    {
        let mut j: usize = i;
        assert forall|a: int, b: int| 0 <= a < b <= i && b != j implies key_le(
            #[trigger] buckets@[a],
            #[trigger] buckets@[b],
        ) by {
            assert(buckets@.subrange(0, i as int)[a] == buckets@[a]);
            assert(buckets@.subrange(0, i as int)[b] == buckets@[b]);
        }
        while j > 0 && !key_le_exec(&buckets[j - 1], &buckets[j])
            invariant
                0 <= j <= i < n,
                buckets.len() == n,
                buckets@.to_multiset() == old(buckets)@.to_multiset(),
                forall|key: (usize, usize)|
                    #[trigger] buckets@.filter(has_key(key)) == old(buckets)@.filter(has_key(key)),
                forall|a: int, b: int|
                    0 <= a < b <= i && b != j ==> key_le(#[trigger] buckets@[a], #[trigger] buckets@[b]),
                forall|a: int, b: int|
                    0 <= a < j && j < b <= i ==> key_le(#[trigger] buckets@[a], #[trigger] buckets@[b]),
            decreases j,
        {
            let ghost before = buckets@;
            let x = buckets[j - 1];
            let y = buckets[j];
            buckets.set(j - 1, y);
            buckets.set(j, x);
            proof {
                let s1 = before.update(j - 1, y);
                assert(s1.to_multiset() == before.to_multiset().insert(y).remove(x));
                assert(s1[j as int] == y);
                assert(buckets@ =~= s1.update(j as int, x));
                assert(s1.update(j as int, x).to_multiset() == s1.to_multiset().insert(x).remove(
                    y,
                ));
                assert(before.contains(x));
                assert(buckets@.to_multiset() =~= before.to_multiset());
                assert forall|key: (usize, usize)| #[trigger] buckets@.filter(has_key(key))
                    == old(buckets)@.filter(has_key(key)) by {
                    lemma_swap_keeps_key_order(before, j as int, key);
                }
            }
            j = j - 1;
        }
        i = i + 1;
    }
    assert(buckets@.subrange(0, n as int) =~= buckets@);
}

} // verus!
