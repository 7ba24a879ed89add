//! Byte offset to line/column conversions over newline-separated text.
use vstd::prelude::*;

verus! {

/// A zero-based line and column, counted in bytes.
#[derive(Clone, Copy, PartialEq, Eq, Structural, Debug)]
pub struct TextPosition {
    pub line: usize,
    pub character: usize,
}

/// Newline bytes in `s`.
pub open spec fn count_nl(s: Seq<u8>) -> int
    decreases s.len(),
{
    if s.len() == 0 {
        0
    } else {
        count_nl(s.drop_last()) + (if s.last() == 10 {
            1int
        } else {
            0int
        })
    }
}

/// How many lines the text has: one per newline, plus a final unterminated
/// line if the text is nonempty and does not end in a newline.
pub open spec fn line_count(s: Seq<u8>) -> int {
    count_nl(s) + (if s.len() > 0 && s.last() != 10 {
        1int
    } else {
        0int
    })
}

/// `ls` starts the line that contains byte `offset`.
pub open spec fn line_start_of(s: Seq<u8>, ls: int, offset: int) -> bool {
    &&& 0 <= ls <= offset
    &&& (ls == 0 || s[ls - 1] == 10)
    &&& (forall|j: int| ls <= j < offset ==> s[j] != 10)
}

/// At most one newline per byte.
pub proof fn lemma_count_nl_bound(s: Seq<u8>)
    ensures
        0 <= count_nl(s) <= s.len(),
    decreases s.len(),
{
    if s.len() > 0 {
        lemma_count_nl_bound(s.drop_last());
    }
}

pub proof fn lemma_count_nl_prefix(s: Seq<u8>, i: int)
    requires
        0 <= i <= s.len(),
    ensures
        count_nl(s.take(i + 1)) == count_nl(s.take(i)) + (if i < s.len() && s[i] == 10 {
            1int
        } else {
            0int
        }) || i == s.len(),
{
    if i < s.len() {
        assert(s.take(i + 1).drop_last() =~= s.take(i));
        assert(s.take(i + 1).last() == s[i]);
    }
}

/// The line and column of a byte offset: the line is the number of
/// newlines before it, the column its distance from its line's start. An
/// offset at or past the end names the position after the last line.
pub fn byte_offset_to_position(source: &[u8], offset: usize) -> (r: TextPosition)
    ensures
        offset < source@.len() ==> r.line == count_nl(source@.take(offset as int)) && (exists|
            ls: int,
        |
            #[trigger] line_start_of(source@, ls, offset as int) && r.character == offset - ls),
        offset >= source@.len() ==> r.line == line_count(source@) && r.character == 0,
{
    let n = source.len();
    let mut i: usize = 0;
    let mut line: usize = 0;
    let mut ls: usize = 0;
    proof {
        assert(source@.take(0) =~= Seq::<u8>::empty());
    }
    while i < n && i < offset
        invariant
            0 <= i <= n,
            i <= offset,
            line == count_nl(source@.take(i as int)),
            line < i + 1,
            line_start_of(source@, ls as int, i as int),
        decreases n - i,
    {
        proof {
            lemma_count_nl_prefix(source@, i as int);
        }
        if source[i] == 10 {
            line += 1;
            ls = i + 1;
        }
        i += 1;
    }
    if offset < n {
        assert(i == offset);
        return TextPosition { line, character: offset - ls };
    }
    // past the end: the position after the last line
    assert(i == n);
    if n > 0 && source[n - 1] != 10 {
        proof {
            assert(source@.take(n as int) =~= source@);
            assert(source@.last() == source@[n - 1]);
            lemma_count_nl_prefix(source@, n - 1);
            lemma_count_nl_bound(source@.take(n - 1));
            assert(line < n);
        }
        TextPosition { line: line + 1, character: 0 }
    } else {
        proof {
            assert(source@.take(n as int) =~= source@);
        }
        TextPosition { line, character: 0 }
    }
}

/// All the conditions under which a position names a byte offset: `ls`
/// starts line number `pos.line`, the line exists, runs to `te`, and the
/// column fits within it.
pub open spec fn position_maps_to(s: Seq<u8>, pos: TextPosition, ls: int, te: int, off: int) -> bool {
    &&& 0 <= ls <= s.len()
    &&& count_nl(s.take(ls)) == pos.line
    &&& (ls == 0 || s[ls - 1] == 10)
    &&& ls < s.len()
    &&& ls <= te <= s.len()
    &&& (forall|j: int| ls <= j < te ==> s[j] != 10)
    &&& (te < s.len() ==> s[te] == 10)
    &&& pos.character <= te - ls
    &&& off == ls + pos.character
}

/// The position names some byte offset of the text.
pub open spec fn position_resolves(s: Seq<u8>, pos: TextPosition, off: int) -> bool {
    exists|ls: int, te: int| position_maps_to(s, pos, ls, te, off)
}

/// The byte offset of a line/column position: the start of line
/// `pos.line` plus the column, provided that line exists and is long
/// enough.
#[verifier::rlimit(60)]
pub fn position_to_byte_offset(source: &[u8], pos: TextPosition) -> (r: Option<usize>)
    ensures
        r is Some ==> position_resolves(source@, pos, r.unwrap() as int),
        r is None ==> (forall|off: int| !position_resolves(source@, pos, off)),
{
    let n = source.len();
    // find the start of line `pos.line`
    let mut i: usize = 0;
    let mut line: usize = 0;
    proof {
        assert(source@.take(0) =~= Seq::<u8>::empty());
    }
    while i < n && line < pos.line
        invariant
            0 <= i <= n,
            line <= pos.line,
            line == count_nl(source@.take(i as int)),
            i == 0 || (line == pos.line ==> source@[i - 1] == 10),
            line < pos.line ==> (forall|ls: int, te: int, off: int|
                #[trigger] position_maps_to(source@, pos, ls, te, off) ==> ls > i),
        decreases n - i,
    {
        proof {
            lemma_count_nl_prefix(source@, i as int);
            assert forall|ls: int, te: int, off: int|
                #[trigger] position_maps_to(source@, pos, ls, te, off) implies ls > i + 1 || !(
                source@[i as int] == 10 && line + 1 < pos.line) by {
                if ls <= i + 1 && position_maps_to(source@, pos, ls, te, off) {
                    lemma_count_nl_monotonic(source@, ls, i + 1);
                }
            }
        }
        if source[i] == 10 {
            line += 1;
        }
        i += 1;
        if line == pos.line {
            break;
        }
    }
    if line < pos.line || i >= n {
        // not enough lines, or the line starts past the end
        assert forall|off: int| !position_resolves(source@, pos, off) by {
            if position_resolves(source@, pos, off) {
                let (ls, te) = choose|ls: int, te: int|
                    position_maps_to(source@, pos, ls, te, off);
                if line < pos.line {
                    assert(ls > i);
                    lemma_count_nl_monotonic(source@, i as int, ls);
                } else {
                    lemma_line_start_unique(source@, ls, i as int, pos.line as int);
                }
            }
        }
        return None;
    }
    // the line runs to the next newline or the end
    let mut te: usize = i;
    while te < n && source[te] != 10
        invariant
            i <= te <= n,
            forall|j: int| i <= j < te ==> source@[j] != 10,
        decreases n - te,
    {
        te += 1;
    }
    if pos.character <= te - i {
        let off = i + pos.character;
        proof {
            assert(position_maps_to(source@, pos, i as int, te as int, off as int));
            assert(position_resolves(source@, pos, off as int));
        }
        Some(off)
    } else {
        assert forall|off: int| !position_resolves(source@, pos, off) by {
            if position_resolves(source@, pos, off) {
                let (ls, te2) = choose|ls: int, te2: int|
                    position_maps_to(source@, pos, ls, te2, off);
                lemma_line_start_unique(source@, ls, i as int, pos.line as int);
                if te2 < te {
                    assert(source@[te2] != 10);
                }
                if te < te2 {
                    assert(source@[te as int] != 10);
                }
            }
        }
        None
    }
}

/// Newline counts grow along prefixes.
proof fn lemma_count_nl_monotonic(s: Seq<u8>, a: int, b: int)
    requires
        0 <= a <= b <= s.len(),
    ensures
        count_nl(s.take(a)) <= count_nl(s.take(b)),
        (exists|j: int| a <= j < b && s[j] == 10) ==> count_nl(s.take(a)) < count_nl(s.take(b)),
    decreases b - a,
{
    if a < b {
        lemma_count_nl_monotonic(s, a, b - 1);
        lemma_count_nl_prefix(s, b - 1);
        if exists|j: int| a <= j < b && s[j] == 10 {
            let j = choose|j: int| a <= j < b && s[j] == 10;
            if j == b - 1 {
            } else {
                assert(exists|t: int| a <= t < b - 1 && s[t] == 10);
            }
        }
    }
}

/// Two starts of the same line number coincide.
proof fn lemma_line_start_unique(s: Seq<u8>, ls1: int, ls2: int, line: int)
    requires
        0 <= ls1 <= s.len(),
        0 <= ls2 <= s.len(),
        count_nl(s.take(ls1)) == line,
        count_nl(s.take(ls2)) == line,
        ls1 == 0 || s[ls1 - 1] == 10,
        ls2 == 0 || s[ls2 - 1] == 10,
    ensures
        ls1 == ls2,
{
    if ls1 < ls2 {
        assert(s[ls2 - 1] == 10);
        lemma_count_nl_monotonic(s, ls1, ls2);
        assert(exists|j: int| ls1 <= j < ls2 && s[j] == 10);
    }
    if ls2 < ls1 {
        assert(s[ls1 - 1] == 10);
        lemma_count_nl_monotonic(s, ls2, ls1);
        assert(exists|j: int| ls2 <= j < ls1 && s[j] == 10);
    }
}

} // verus!
