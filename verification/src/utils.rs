use vstd::prelude::*;

verus! {

/// Whether memory type `i` is allowed by the `memory_type_bits` mask and its
/// property flags include every flag of `properties`.
pub open spec fn memory_type_suitable(
    memory_type_flags: Seq<u32>,
    properties: u32,
    memory_type_bits: u32,
    i: int,
) -> bool {
    &&& (memory_type_bits & (1u32 << (i as u32))) != 0
    &&& (memory_type_flags[i] & properties) == properties
}

/// The first of the `memory_type_count` memory types (with property flags
/// `memory_type_flags`) that is allowed by `memory_type_bits` and has all of
/// `properties`, or `None` when there is none.
pub fn get_memory_type_index(
    memory_type_count: u32,
    memory_type_flags: &[u32],
    properties: u32,
    memory_type_bits: u32,
) -> (r: Option<u32>)
    requires
        memory_type_count <= 32,
        memory_type_count <= memory_type_flags@.len(),
    ensures
        match r {
            Some(i) => {
                &&& i < memory_type_count
                &&& memory_type_suitable(memory_type_flags@, properties, memory_type_bits, i as int)
                &&& forall|j: int|
                    0 <= j < i ==> !memory_type_suitable(
                        memory_type_flags@,
                        properties,
                        memory_type_bits,
                        j,
                    )
            },
            None => forall|j: int|
                0 <= j < memory_type_count ==> !memory_type_suitable(
                    memory_type_flags@,
                    properties,
                    memory_type_bits,
                    j,
                ),
        },
{
    let mut i: u32 = 0;
    while i < memory_type_count
        invariant
            i <= memory_type_count,
            memory_type_count <= 32,
            memory_type_count <= memory_type_flags@.len(),
            forall|j: int|
                0 <= j < i ==> !memory_type_suitable(
                    memory_type_flags@,
                    properties,
                    memory_type_bits,
                    j,
                ),
        decreases memory_type_count - i,
    {
        let suitable = (memory_type_bits & (1u32 << i)) != 0;
        let flags = memory_type_flags[i as usize];
        if suitable && (flags & properties) == properties {
            return Some(i);
        }
        i = i + 1;
    }
    None
}

} // verus!
