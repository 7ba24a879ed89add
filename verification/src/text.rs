//! Identifier extraction from source text.
use vstd::prelude::*;

verus! {

/// A byte that may be part of an identifier: ASCII alphanumeric or '_'.
pub open spec fn is_ident_byte(b: u8) -> bool {
    (48 <= b <= 57) || (65 <= b <= 90) || (97 <= b <= 122) || b == 95
}

fn ident_byte(b: u8) -> (r: bool)
    ensures
        r == is_ident_byte(b),
{
    (48 <= b && b <= 57) || (65 <= b && b <= 90) || (97 <= b && b <= 122) || b == 95
}

/// The maximal identifier run around byte `offset`, when there is one.
///
/// The run extends left from `offset` over identifier bytes and right from
/// `offset` likewise; it is returned when it is nonempty. An offset at or
/// past the end of the text yields nothing.
pub fn extract_identifier_at(source: &[u8], offset: usize) -> (r: Option<Vec<u8>>)
    ensures
        match r {
            Some(w) => offset < source@.len() && (exists|st: int, en: int|
                {
                    &&& 0 <= st <= offset
                    &&& offset <= en <= source@.len()
                    &&& st < en
                    &&& (forall|j: int| st <= j < en ==> is_ident_byte(#[trigger] source@[j]))
                    &&& (st > 0 ==> !is_ident_byte(source@[st - 1]))
                    &&& (en < source@.len() ==> !is_ident_byte(source@[en as int]))
                    &&& w@ == source@.subrange(st, en)
                }),
            None => offset >= source@.len() || (!is_ident_byte(source@[offset as int]) && (offset
                == 0 || !is_ident_byte(source@[offset - 1]))),
        },
{
    if offset >= source.len() {
        return None;
    }
    let mut st: usize = offset;
    while st > 0 && ident_byte(source[st - 1])
        invariant
            st <= offset,
            forall|j: int| st <= j < offset ==> is_ident_byte(#[trigger] source@[j]),
        decreases st,
    {
        st -= 1;
    }
    let mut en: usize = offset;
    while en < source.len() && ident_byte(source[en])
        invariant
            offset <= en <= source@.len(),
            forall|j: int| offset <= j < en ==> is_ident_byte(#[trigger] source@[j]),
        decreases source@.len() - en,
    {
        en += 1;
    }
    if st < en {
        let mut out: Vec<u8> = Vec::new();
        let mut i: usize = st;
        while i < en
            invariant
                st <= i <= en <= source@.len(),
                out@ == source@.subrange(st as int, i as int),
            decreases en - i,
        {
            out.push(source[i]);
            proof {
                assert(source@.subrange(st as int, i + 1) =~= source@.subrange(
                    st as int,
                    i as int,
                ).push(source@[i as int]));
            }
            i += 1;
        }
        Some(out)
    } else {
        None
    }
}

} // verus!
