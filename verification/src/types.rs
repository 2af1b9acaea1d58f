//! The marker that stands for a deleted value.

use vstd::prelude::*;

verus! {

/// The bytes `__TOMBSTONE__`: the value a deletion stores.
pub open spec fn tombstone() -> Seq<u8> {
    seq![
        95u8, 95u8, 84u8, 79u8, 77u8, 66u8, 83u8, 84u8, 79u8, 78u8, 69u8, 95u8, 95u8,
    ]
}

/// What a reader sees of a stored value: nothing, if it is the tombstone.
pub open spec fn visible(value: Seq<u8>) -> Option<Seq<u8>> {
    if value == tombstone() {
        None
    } else {
        Some(value)
    }
}

/// The tombstone as an owned value.
pub fn tombstone_value() -> (value: Vec<u8>)
    ensures
        value@ == tombstone(),
{
    let value: Vec<u8> = vec![
        95u8, 95u8, 84u8, 79u8, 77u8, 66u8, 83u8, 84u8, 79u8, 78u8, 69u8, 95u8, 95u8,
    ];
    assert(value@ =~= tombstone());
    value
}

/// Whether `value` marks a deletion.
pub fn is_tombstone(value: &[u8]) -> (marks_deletion: bool)
    ensures
        marks_deletion == (value@ == tombstone()),
{
    let marker = tombstone_value();
    if value.len() != marker.len() {
        return false;
    }
    let mut i: usize = 0;
    while i < marker.len()
        invariant
            0 <= i <= marker.len(),
            marker@ == tombstone(),
            value.len() == marker.len(),
            forall|j: int| 0 <= j < i ==> value@[j] == marker@[j],
        decreases marker.len() - i,
    {
        if value[i] != marker[i] {
            return false;
        }
        i = i + 1;
    }
    assert(value@ =~= tombstone());
    true
}

/// The one value that a reader does not see is `__TOMBSTONE__`; every other value is
/// seen as it is.
pub proof fn law_only_the_tombstone_is_hidden(value: Seq<u8>)
    ensures
        visible(value) == (if value == seq![
            0x5Fu8, 0x5Fu8, 0x54u8, 0x4Fu8, 0x4Du8, 0x42u8, 0x53u8, 0x54u8, 0x4Fu8, 0x4Eu8, 0x45u8,
            0x5Fu8, 0x5Fu8,
        ] {
            None
        } else {
            Some(value)
        }),
        visible(value) is None <==> value == tombstone(),
{
}

} // verus!
