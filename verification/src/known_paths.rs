//! Replacement of known paths in a stream of TeX output.
//!
//! TeX breaks its output into lines of fixed width, so a path may come with
//! line breaks in the middle of it; a read from a pipe may end in the middle of
//! one as well.
use vstd::prelude::*;
use vstd::slice::slice_subrange;
use crate::bytes::{append, is_line_break, pair_views, CR, LF};

verus! {

/// What is left of `data` without its line breaks.
pub open spec fn unwrapped(data: Seq<u8>) -> Seq<u8> {
    data.filter(|b: u8| !is_line_break(b))
}

/// The first `n` bytes of `data` are `path`, but for line breaks inside it.
pub open spec fn matches_whole(data: Seq<u8>, path: Seq<u8>, n: int) -> bool {
    &&& path.len() > 0
    &&& 0 < n <= data.len()
    &&& data[0] == path[0]
    &&& !is_line_break(data[n - 1])
    &&& unwrapped(data.take(n)) == path
}

/// `data` ends before it can be told whether it begins with `path`.
pub open spec fn matches_in_part(data: Seq<u8>, path: Seq<u8>) -> bool {
    &&& path.len() > 0
    &&& data.len() > 0
    &&& data[0] == path[0]
    &&& unwrapped(data).len() < path.len()
    &&& unwrapped(data).is_prefix_of(path)
}

/// How much of some data is a known path.
pub enum PathMatch {
    /// The path, in so many bytes of the data.
    Full(usize),
    /// The data ends inside what may become the path.
    Partial,
    /// The data begins with something else.
    Mismatch,
}

impl PathMatch {
    /// The answer is the right one for `data` and `path`.
    pub open spec fn describes(self, data: Seq<u8>, path: Seq<u8>) -> bool {
        match self {
            PathMatch::Full(n) => matches_whole(data, path, n as int),
            PathMatch::Partial => matches_in_part(data, path),
            PathMatch::Mismatch => !matches_in_part(data, path) && forall|n: int|
                !matches_whole(data, path, n),
        }
    }
}

/// Taking line breaks out of two pieces of a string, one after the other.
proof fn lemma_unwrapped_add(a: Seq<u8>, b: Seq<u8>)
    ensures
        unwrapped(a + b) == unwrapped(a) + unwrapped(b),
{
    Seq::filter_distributes_over_add(a, b, |x: u8| !is_line_break(x));
}

/// One more byte is kept where it is no line break.
proof fn lemma_unwrapped_push(data: Seq<u8>, n: int)
    requires
        0 <= n < data.len(),
    ensures
        unwrapped(data.take(n + 1)) == if is_line_break(data[n]) {
            unwrapped(data.take(n))
        } else {
            unwrapped(data.take(n)).push(data[n])
        },
{
    reveal(Seq::filter);
    assert(data.take(n + 1).drop_last() =~= data.take(n));
}

/// What is kept of a part that ends in no line break is the beginning of what
/// is kept of the whole, and is no longer than it.
proof fn lemma_unwrapped_take(data: Seq<u8>, n: int, m: int)
    requires
        0 <= n <= m <= data.len(),
    ensures
        unwrapped(data.take(n)).len() <= unwrapped(data.take(m)).len(),
        unwrapped(data.take(n)).is_prefix_of(unwrapped(data.take(m))),
        n < m && !is_line_break(data[m - 1]) ==> unwrapped(data.take(n)).len() < unwrapped(
            data.take(m),
        ).len(),
    decreases m,
{
    assert(data.take(m) =~= data.take(n) + data.subrange(n, m));
    lemma_unwrapped_add(data.take(n), data.subrange(n, m));
    if n < m && !is_line_break(data[m - 1]) {
        lemma_unwrapped_push(data, m - 1);
        lemma_unwrapped_take(data, n, m - 1);
    }
}

/// A whole match has one length only, and is no match in part.
pub proof fn lemma_match_is_unique(data: Seq<u8>, path: Seq<u8>, n: int)
    requires
        matches_whole(data, path, n),
    ensures
        !matches_in_part(data, path),
        forall|m: int| matches_whole(data, path, m) ==> m == n,
{
    assert(data.take(data.len() as int) =~= data);
    lemma_unwrapped_take(data, n, data.len() as int);
    assert forall|m: int| matches_whole(data, path, m) implies m == n by {
        if m < n {
            lemma_unwrapped_take(data, m, n);
        } else if n < m {
            lemma_unwrapped_take(data, n, m);
        }
    }
}

/// Data that differs from the path at a byte that is no line break does not
/// match it, and will not.
proof fn lemma_mismatch(data: Seq<u8>, path: Seq<u8>, i: int, n: int)
    requires
        0 <= i < path.len(),
        0 <= n < data.len(),
        unwrapped(data.take(n)) == path.take(i),
        !is_line_break(data[n]),
        data[n] != path[i],
    ensures
        PathMatch::Mismatch.describes(data, path),
{
    lemma_unwrapped_push(data, n);
    assert(unwrapped(data.take(n + 1))[i] == data[n]);
    assert(data.take(data.len() as int) =~= data);
    lemma_unwrapped_take(data, n + 1, data.len() as int);
    assert(unwrapped(data)[i] == data[n]);
    assert forall|m: int| !matches_whole(data, path, m) by {
        if matches_whole(data, path, m) {
            if m <= n {
                lemma_unwrapped_take(data, m, n);
            } else {
                lemma_unwrapped_take(data, n + 1, m);
                assert(unwrapped(data.take(m))[i] == data[n]);
            }
        }
    }
}

/// Matches a known path while ignoring the line breaks that TeX puts in.
pub fn match_known_path(data: &[u8], path: &[u8]) -> (r: PathMatch)
    ensures
        r.describes(data@, path@),
{
    if path.len() == 0 || data.len() == 0 || data[0] != path[0] {
        return PathMatch::Mismatch;
    }
    let mut at: usize = 0;
    let mut i: usize = 0;
    assert(data@.take(0) =~= Seq::<u8>::empty());
    assert(path@.take(0) =~= Seq::<u8>::empty());
    assert(unwrapped(data@.take(0)) =~= path@.take(0)) by {
        reveal(Seq::filter);
    }
    while i < path.len()
        invariant
            i <= path@.len(),
            at <= data@.len(),
            path@.len() > 0,
            data@.len() > 0,
            data@[0] == path@[0],
            unwrapped(data@.take(at as int)) == path@.take(i as int),
            i > 0 ==> at > 0 && !is_line_break(data@[at - 1]),
        decreases path@.len() - i,
    {
        while at < data.len() && (data[at] == CR || data[at] == LF)
            invariant
                at <= data@.len(),
                unwrapped(data@.take(at as int)) == path@.take(i as int),
            decreases data@.len() - at,
        {
            proof {
                lemma_unwrapped_push(data@, at as int);
            }
            at += 1;
        }
        if at == data.len() {
            assert(data@.take(at as int) =~= data@);
            return PathMatch::Partial;
        }
        if data[at] != path[i] {
            proof {
                lemma_mismatch(data@, path@, i as int, at as int);
            }
            return PathMatch::Mismatch;
        }
        proof {
            lemma_unwrapped_push(data@, at as int);
            assert(path@.take(i + 1) =~= path@.take(i as int).push(path@[i as int]));
        }
        at += 1;
        i += 1;
    }
    assert(path@.take(i as int) =~= path@);
    PathMatch::Full(at)
}

/// What becomes of the first bytes of some data.
pub enum Step {
    /// So many bytes are a known path, and give way to its native form.
    Replace(int, Seq<u8>),
    /// It takes more data to tell.
    Wait,
    /// The first byte is no beginning of a known path.
    Keep,
}

/// What becomes of the first bytes of `data`: the first mapping of the list
/// that matches them decides. Where more data may come, one that matches them
/// in part decides too.
pub open spec fn step(
    data: Seq<u8>,
    mappings: Seq<(Seq<u8>, Seq<u8>)>,
    end_of_input: bool,
) -> Step
    decreases mappings.len(),
{
    if mappings.len() == 0 {
        Step::Keep
    } else if exists|n: int| matches_whole(data, mappings[0].0, n) {
        Step::Replace(choose|n: int| matches_whole(data, mappings[0].0, n), mappings[0].1)
    } else if !end_of_input && matches_in_part(data, mappings[0].0) {
        Step::Wait
    } else {
        step(data, mappings.drop_first(), end_of_input)
    }
}

/// A path that is replaced has at least one byte, and no more than there are.
pub proof fn lemma_step_bounds(
    data: Seq<u8>,
    mappings: Seq<(Seq<u8>, Seq<u8>)>,
    end_of_input: bool,
)
    ensures
        step(data, mappings, end_of_input) matches Step::Replace(n, _) ==> 0 < n <= data.len(),
        end_of_input ==> !(step(data, mappings, end_of_input) is Wait),
    decreases mappings.len(),
{
    if mappings.len() > 0 {
        lemma_step_bounds(data, mappings.drop_first(), end_of_input);
    }
}

/// The text that `data` gives, with known paths replaced, and the rest of
/// `data`, which waits for more.
pub open spec fn drained(
    data: Seq<u8>,
    mappings: Seq<(Seq<u8>, Seq<u8>)>,
    end_of_input: bool,
) -> (Seq<u8>, Seq<u8>)
    decreases data.len(),
{
    if data.len() == 0 {
        (Seq::empty(), Seq::empty())
    } else {
        match step(data, mappings, end_of_input) {
            Step::Replace(n, native) => if 0 < n <= data.len() {
                let (text, rest) = drained(data.skip(n), mappings, end_of_input);
                (native + text, rest)
            } else {
                (Seq::empty(), data)
            },
            Step::Wait => (Seq::empty(), data),
            Step::Keep => {
                let (text, rest) = drained(data.skip(1), mappings, end_of_input);
                (seq![data[0]] + text, rest)
            },
        }
    }
}

/// `data` with every known path replaced.
pub open spec fn replaced(data: Seq<u8>, mappings: Seq<(Seq<u8>, Seq<u8>)>) -> Seq<u8> {
    drained(data, mappings, true).0
}

/// What stands at the start of some data.
pub enum Found {
    /// A known path, in so many bytes, with its place in the list of mappings.
    Path(usize, usize),
    /// What may become a known path when more data comes.
    Beginning,
    /// Neither.
    Nothing,
}

/// Finds the known path at the start of some data.
pub(crate) fn find_known_path(
    data: &[u8],
    mappings: &[(Vec<u8>, Vec<u8>)],
    end_of_input: bool,
) -> (r: Found)
    ensures
        match r {
            Found::Path(n, at) => at < mappings@.len() && 0 < n <= data@.len() && step(
                data@,
                pair_views(mappings@),
                end_of_input,
            ) == Step::Replace(n as int, mappings@[at as int].1@),
            Found::Beginning => step(data@, pair_views(mappings@), end_of_input) is Wait,
            Found::Nothing => step(data@, pair_views(mappings@), end_of_input) is Keep,
        },
{
    let ghost known = pair_views(mappings@);
    let mut i: usize = 0;
    assert(known.skip(0) =~= known);
    proof {
        lemma_step_bounds(data@, known, end_of_input);
    }
    while i < mappings.len()
        invariant
            known == pair_views(mappings@),
            i <= mappings@.len(),
            step(data@, known, end_of_input) == step(data@, known.skip(i as int), end_of_input),
            step(data@, known, end_of_input) matches Step::Replace(n, _) ==> 0 < n <= data@.len(),
        decreases mappings@.len() - i,
    {
        let found: PathMatch = match_known_path(data, mappings[i].0.as_slice());
        assert(known.skip(i as int)[0] == (mappings@[i as int].0@, mappings@[i as int].1@));
        assert(known.skip(i as int).drop_first() =~= known.skip(i + 1));
        match found {
            PathMatch::Full(n) => {
                proof {
                    lemma_match_is_unique(data@, mappings@[i as int].0@, n as int);
                }
                return Found::Path(n, i);
            },
            PathMatch::Partial => {
                proof {
                    assert forall|n: int| !matches_whole(data@, mappings@[i as int].0@, n) by {
                        if matches_whole(data@, mappings@[i as int].0@, n) {
                            lemma_match_is_unique(data@, mappings@[i as int].0@, n);
                        }
                    }
                }
                if !end_of_input {
                    return Found::Beginning;
                }
            },
            PathMatch::Mismatch => {},
        }
        i += 1;
    }
    Found::Nothing
}

/// Gives out the text that is safe to give out, with known paths replaced, and
/// leaves in `buffer` what may be the beginning of one.
pub fn drain_known_paths(
    buffer: &mut Vec<u8>,
    mappings: &[(Vec<u8>, Vec<u8>)],
    end_of_input: bool,
) -> (output: Vec<u8>)
    ensures
        (output@, final(buffer)@) == drained(old(buffer)@, pair_views(mappings@), end_of_input),
{
    let ghost data = buffer@;
    let ghost known = pair_views(mappings@);
    let mut output: Vec<u8> = Vec::with_capacity(buffer.len());
    let mut cursor: usize = 0;
    assert(data.skip(0) =~= data);
    assert(output@ + drained(data, known, end_of_input).0 =~= drained(data, known, end_of_input).0);
    while cursor < buffer.len()
        invariant_except_break
            drained(data, known, end_of_input) == (
                output@ + drained(data.skip(cursor as int), known, end_of_input).0,
                drained(data.skip(cursor as int), known, end_of_input).1,
            ),
        invariant
            buffer@ == data,
            known == pair_views(mappings@),
            cursor <= data.len(),
        ensures
            drained(data, known, end_of_input) == (output@, data.skip(cursor as int)),
        decreases data.len() - cursor,
    {
        let rest: &[u8] = slice_subrange(buffer.as_slice(), cursor, buffer.len());
        assert(rest@ =~= data.skip(cursor as int));
        let found: Found = find_known_path(rest, mappings, end_of_input);
        let ghost before = output@;
        match found {
            Found::Path(n, at) => {
                append(&mut output, mappings[at].1.as_slice());
                proof {
                    assert(rest@.skip(n as int) =~= data.skip(cursor + n));
                    assert(output@ + drained(data.skip(cursor + n), known, end_of_input).0
                        =~= before + drained(rest@, known, end_of_input).0);
                }
                cursor += n;
            },
            Found::Beginning => {
                assert(before + Seq::<u8>::empty() =~= before);
                break;
            },
            Found::Nothing => {
                output.push(buffer[cursor]);
                proof {
                    assert(rest@.skip(1) =~= data.skip(cursor + 1));
                    assert(output@ + drained(data.skip(cursor + 1), known, end_of_input).0
                        =~= before + drained(rest@, known, end_of_input).0);
                }
                cursor += 1;
            },
        }
    }
    let rest: Vec<u8> = buffer.split_off(cursor);
    assert(rest@ =~= data.skip(cursor as int));
    *buffer = rest;
    output
}

/// Replaces the known paths of a whole text.
pub fn replace_known_paths(data: &[u8], mappings: &[(Vec<u8>, Vec<u8>)]) -> (r: Vec<u8>)
    ensures
        r@ == replaced(data@, pair_views(mappings@)),
{
    let mut buffer: Vec<u8> = vstd::slice::slice_to_vec(data);
    drain_known_paths(&mut buffer, mappings, true)
}

/// A list of mappings in which no path stands after a shorter one.
pub open spec fn longest_first(mappings: Seq<(Seq<u8>, Seq<u8>)>) -> bool {
    forall|i: int, j: int|
        0 <= i < j < mappings.len() ==> (#[trigger] mappings[i]).0.len() >= (
        #[trigger] mappings[j]).0.len()
}

/// A list of mappings in which no path stands twice.
pub open spec fn no_path_twice(mappings: Seq<(Seq<u8>, Seq<u8>)>) -> bool {
    forall|i: int, j: int|
        0 <= i < j < mappings.len() ==> (#[trigger] mappings[i]).0 != (#[trigger] mappings[j]).0
}

/// A mapping decides what becomes of the first bytes of `data`.
spec fn decides(data: Seq<u8>, path: Seq<u8>, end_of_input: bool) -> bool {
    (exists|n: int| matches_whole(data, path, n)) || (!end_of_input && matches_in_part(data, path))
}

/// The decision of the first mapping that decides.
proof fn lemma_first_that_decides(
    data: Seq<u8>,
    mappings: Seq<(Seq<u8>, Seq<u8>)>,
    end_of_input: bool,
    k: int,
)
    requires
        0 <= k < mappings.len(),
        decides(data, mappings[k].0, end_of_input),
        forall|i: int| 0 <= i < k ==> !decides(data, (#[trigger] mappings[i]).0, end_of_input),
    ensures
        step(data, mappings, end_of_input) == step(data, seq![mappings[k]], end_of_input),
    decreases k,
{
    if k > 0 {
        assert(!decides(data, mappings[0].0, end_of_input));
        lemma_first_that_decides(data, mappings.drop_first(), end_of_input, k - 1);
    } else {
        assert(seq![mappings[k]][0] == mappings[0]);
    }
}

/// Where no mapping decides, the first byte is kept.
proof fn lemma_none_decides(
    data: Seq<u8>,
    mappings: Seq<(Seq<u8>, Seq<u8>)>,
    end_of_input: bool,
)
    requires
        forall|i: int|
            0 <= i < mappings.len() ==> !decides(data, (#[trigger] mappings[i]).0, end_of_input),
    ensures
        step(data, mappings, end_of_input) is Keep,
    decreases mappings.len(),
{
    if mappings.len() > 0 {
        assert(!decides(data, mappings[0].0, end_of_input));
        lemma_none_decides(data, mappings.drop_first(), end_of_input);
    }
}

/// The index of the first mapping that decides, if there is one.
spec fn first_that_decides(
    data: Seq<u8>,
    mappings: Seq<(Seq<u8>, Seq<u8>)>,
    end_of_input: bool,
) -> int
    decreases mappings.len(),
{
    if mappings.len() == 0 || decides(data, mappings[0].0, end_of_input) {
        0
    } else {
        1 + first_that_decides(data, mappings.drop_first(), end_of_input)
    }
}

proof fn lemma_first_index(
    data: Seq<u8>,
    mappings: Seq<(Seq<u8>, Seq<u8>)>,
    end_of_input: bool,
)
    ensures
        ({
            let k = first_that_decides(data, mappings, end_of_input);
            &&& 0 <= k <= mappings.len()
            &&& k < mappings.len() ==> decides(data, mappings[k].0, end_of_input)
            &&& forall|i: int|
                0 <= i < k ==> !decides(data, (#[trigger] mappings[i]).0, end_of_input)
        }),
    decreases mappings.len(),
{
    if mappings.len() > 0 && !decides(data, mappings[0].0, end_of_input) {
        lemma_first_index(data, mappings.drop_first(), end_of_input);
        let k = first_that_decides(data, mappings, end_of_input);
        assert forall|i: int| 0 <= i < k implies !decides(
            data,
            (#[trigger] mappings[i]).0,
            end_of_input,
        ) by {
            if i > 0 {
                assert(mappings[i] == mappings.drop_first()[i - 1]);
            }
        }
    }
}

/// Of two paths of one length, both of which decide, both wait or they are one
/// path.
proof fn lemma_one_length_one_path(data: Seq<u8>, a: Seq<u8>, b: Seq<u8>, end_of_input: bool)
    requires
        a.len() == b.len(),
        decides(data, a, end_of_input),
        decides(data, b, end_of_input),
    ensures
        a == b || (!end_of_input && matches_in_part(data, a) && matches_in_part(data, b)),
{
    assert(data.take(data.len() as int) =~= data);
    if exists|n: int| matches_whole(data, a, n) {
        let n = choose|n: int| matches_whole(data, a, n);
        lemma_unwrapped_take(data, n, data.len() as int);
        if exists|m: int| matches_whole(data, b, m) {
            let m = choose|m: int| matches_whole(data, b, m);
            lemma_unwrapped_take(data, m, data.len() as int);
            assert(a =~= b);
        }
    } else if exists|m: int| matches_whole(data, b, m) {
        let m = choose|m: int| matches_whole(data, b, m);
        lemma_unwrapped_take(data, m, data.len() as int);
    }
}

/// The order of mappings whose paths are of one length decides nothing.
pub proof fn lemma_same_step(
    data: Seq<u8>,
    one: Seq<(Seq<u8>, Seq<u8>)>,
    other: Seq<(Seq<u8>, Seq<u8>)>,
    end_of_input: bool,
)
    requires
        longest_first(one),
        longest_first(other),
        no_path_twice(one),
        forall|m: (Seq<u8>, Seq<u8>)| one.contains(m) <==> other.contains(m),
    ensures
        step(data, one, end_of_input) == step(data, other, end_of_input),
{
    lemma_first_index(data, one, end_of_input);
    lemma_first_index(data, other, end_of_input);
    let k = first_that_decides(data, one, end_of_input);
    let l = first_that_decides(data, other, end_of_input);
    if k == one.len() {
        lemma_none_decides(data, one, end_of_input);
        if l < other.len() {
            assert(other.contains(other[l]));
            let i = choose|i: int| 0 <= i < one.len() && one[i] == other[l];
            assert(!decides(data, one[i].0, end_of_input));
        }
        lemma_none_decides(data, other, end_of_input);
    } else {
        lemma_first_that_decides(data, one, end_of_input, k);
        assert(one.contains(one[k]));
        let j = choose|j: int| 0 <= j < other.len() && other[j] == one[k];
        assert(l <= j);
        lemma_first_that_decides(data, other, end_of_input, l);
        assert(other.contains(other[l]));
        let i = choose|i: int| 0 <= i < one.len() && one[i] == other[l];
        assert(k <= i);
        assert(one[k].0.len() >= one[i].0.len());
        assert(other[l].0.len() >= other[j].0.len());
        lemma_one_length_one_path(data, one[k].0, other[l].0, end_of_input);
        if one[k].0 == other[l].0 {
            assert(one[k] == one[i]);
        } else {
            assert forall|n: int| !matches_whole(data, one[k].0, n) && !matches_whole(
                data,
                other[l].0,
                n,
            ) by {
                if matches_whole(data, one[k].0, n) {
                    lemma_match_is_unique(data, one[k].0, n);
                }
                if matches_whole(data, other[l].0, n) {
                    lemma_match_is_unique(data, other[l].0, n);
                }
            }
        }
    }
}

/// The order of mappings whose paths are of one length does not matter: two
/// lists of the same mappings, each with the longest first, give the same text
/// and leave the same rest.
pub proof fn law_order_of_equal_lengths_is_immaterial(
    data: Seq<u8>,
    one: Seq<(Seq<u8>, Seq<u8>)>,
    other: Seq<(Seq<u8>, Seq<u8>)>,
    end_of_input: bool,
)
    requires
        longest_first(one),
        longest_first(other),
        no_path_twice(one),
        forall|m: (Seq<u8>, Seq<u8>)| one.contains(m) <==> other.contains(m),
    ensures
        drained(data, one, end_of_input) == drained(data, other, end_of_input),
    decreases data.len(),
{
    if data.len() > 0 {
        lemma_same_step(data, one, other, end_of_input);
        lemma_step_bounds(data, one, end_of_input);
        match step(data, one, end_of_input) {
            Step::Replace(n, _) => {
                law_order_of_equal_lengths_is_immaterial(data.skip(n), one, other, end_of_input);
            },
            Step::Wait => {},
            Step::Keep => {
                law_order_of_equal_lengths_is_immaterial(data.skip(1), one, other, end_of_input);
            },
        }
    }
}

/// The longest known path wins: where a known path stands at the beginning of
/// a text, with line breaks inside it or without, and no longer known path
/// does, its native form takes its place.
pub proof fn law_longest_known_path_wins(
    data: Seq<u8>,
    mappings: Seq<(Seq<u8>, Seq<u8>)>,
    k: int,
    n: int,
)
    requires
        longest_first(mappings),
        no_path_twice(mappings),
        0 <= k < mappings.len(),
        matches_whole(data, mappings[k].0, n),
        forall|i: int, m: int|
            0 <= i < mappings.len() && mappings[i].0.len() > mappings[k].0.len()
                ==> !#[trigger] matches_whole(data, mappings[i].0, m),
    ensures
        replaced(data, mappings) == mappings[k].1 + replaced(data.skip(n), mappings),
{
    lemma_first_index(data, mappings, true);
    let f = first_that_decides(data, mappings, true);
    assert(decides(data, mappings[k].0, true));
    assert(f <= k);
    let m = choose|m: int| matches_whole(data, mappings[f].0, m);
    assert(matches_whole(data, mappings[f].0, m));
    if f < k {
        lemma_one_length_one_path(data, mappings[f].0, mappings[k].0, true);
    }
    lemma_first_that_decides(data, mappings, true, k);
    lemma_match_is_unique(data, mappings[k].0, n);
    assert(seq![mappings[k]][0] == mappings[k]);
    assert(step(data, mappings, true) == Step::Replace(n, mappings[k].1));
}

/// At the end of the input nothing waits for more.
pub proof fn law_end_of_input_leaves_nothing(
    data: Seq<u8>,
    mappings: Seq<(Seq<u8>, Seq<u8>)>,
)
    ensures
        drained(data, mappings, true).1.len() == 0,
    decreases data.len(),
{
    if data.len() > 0 {
        lemma_step_bounds(data, mappings, true);
        match step(data, mappings, true) {
            Step::Replace(n, _) => law_end_of_input_leaves_nothing(data.skip(n), mappings),
            Step::Wait => {},
            Step::Keep => law_end_of_input_leaves_nothing(data.skip(1), mappings),
        }
    }
}

/// Text in which no known path begins comes out as it is.
pub proof fn law_other_text_is_unchanged(data: Seq<u8>, mappings: Seq<(Seq<u8>, Seq<u8>)>)
    requires
        forall|at: int, i: int, n: int|
            0 <= at < data.len() && 0 <= i < mappings.len() ==> !#[trigger] matches_whole(
                data.skip(at),
                mappings[i].0,
                n,
            ),
    ensures
        replaced(data, mappings) == data,
    decreases data.len(),
{
    if data.len() > 0 {
        assert(data.skip(0) =~= data);
        assert forall|i: int| 0 <= i < mappings.len() implies !decides(
            data,
            (#[trigger] mappings[i]).0,
            true,
        ) by {
            assert forall|n: int| !matches_whole(data, mappings[i].0, n) by {
                assert(!matches_whole(data.skip(0), mappings[i].0, n));
            }
        }
        lemma_none_decides(data, mappings, true);
        assert forall|at: int, i: int, n: int|
            0 <= at < data.skip(1).len() && 0 <= i < mappings.len() implies !#[trigger] matches_whole(
            data.skip(1).skip(at),
            mappings[i].0,
            n,
        ) by {
            assert(data.skip(1).skip(at) =~= data.skip(at + 1));
            assert(!matches_whole(data.skip(at + 1), mappings[i].0, n));
        }
        law_other_text_is_unchanged(data.skip(1), mappings);
        assert(seq![data[0]] + data.skip(1) =~= data);
    }
}

/// A path that neither matches nor may still match goes on not matching when
/// more data comes.
proof fn lemma_mismatch_stays(data: Seq<u8>, more: Seq<u8>, path: Seq<u8>)
    requires
        data.len() > 0,
        !decides(data, path, false),
    ensures
        !decides(data + more, path, false),
{
    let all = data + more;
    lemma_unwrapped_add(data, more);
    if matches_in_part(all, path) {
        assert(unwrapped(data) =~= unwrapped(all).subrange(0, unwrapped(data).len() as int));
        assert(unwrapped(data).is_prefix_of(path));
        assert(matches_in_part(data, path));
    }
    assert forall|n: int| !matches_whole(all, path, n) by {
        if matches_whole(all, path, n) {
            if n <= data.len() {
                assert(all.take(n) =~= data.take(n));
                assert(matches_whole(data, path, n));
            } else {
                assert(all.take(data.len() as int) =~= data);
                lemma_unwrapped_take(all, data.len() as int, n);
                assert(matches_in_part(data, path));
            }
        }
    }
}

/// What is decided before the input ends is not decided otherwise when more
/// data comes.
pub proof fn lemma_decision_stays(
    data: Seq<u8>,
    more: Seq<u8>,
    mappings: Seq<(Seq<u8>, Seq<u8>)>,
    end_of_input: bool,
)
    requires
        data.len() > 0,
        !(step(data, mappings, false) is Wait),
    ensures
        step(data + more, mappings, end_of_input) == step(data, mappings, false),
    decreases mappings.len(),
{
    if mappings.len() > 0 {
        let path = mappings[0].0;
        if exists|n: int| matches_whole(data, path, n) {
            let n = choose|n: int| matches_whole(data, path, n);
            assert((data + more).take(n) =~= data.take(n));
            assert(matches_whole(data + more, path, n));
            lemma_match_is_unique(data + more, path, n);
        } else {
            lemma_mismatch_stays(data, more, path);
            lemma_decision_stays(data, more, mappings.drop_first(), end_of_input);
        }
    }
}

/// Where a stream is cut into reads does not matter: draining what has come so
/// far, and then what was left of it with what came after, gives the text and
/// leaves the rest that draining all of it at once does.
pub proof fn law_reads_may_split_anywhere(
    first: Seq<u8>,
    second: Seq<u8>,
    mappings: Seq<(Seq<u8>, Seq<u8>)>,
    end_of_input: bool,
)
    ensures
        ({
            let (text, kept) = drained(first, mappings, false);
            let (more_text, rest) = drained(kept + second, mappings, end_of_input);
            drained(first + second, mappings, end_of_input) == (text + more_text, rest)
        }),
    decreases first.len(),
{
    if first.len() == 0 {
        assert(first + second =~= second);
        assert(Seq::<u8>::empty() + second =~= second);
        let more_text = drained(second, mappings, end_of_input).0;
        assert(Seq::<u8>::empty() + more_text =~= more_text);
    } else {
        lemma_step_bounds(first, mappings, false);
        match step(first, mappings, false) {
            Step::Replace(n, native) => {
                lemma_decision_stays(first, second, mappings, end_of_input);
                law_reads_may_split_anywhere(first.skip(n), second, mappings, end_of_input);
                assert((first + second).skip(n) =~= first.skip(n) + second);
                let (text, kept) = drained(first.skip(n), mappings, false);
                let (more_text, rest) = drained(kept + second, mappings, end_of_input);
                assert(native + (text + more_text) =~= (native + text) + more_text);
            },
            Step::Wait => {
                let text = drained(first + second, mappings, end_of_input).0;
                assert(Seq::<u8>::empty() + text =~= text);
            },
            Step::Keep => {
                lemma_decision_stays(first, second, mappings, end_of_input);
                law_reads_may_split_anywhere(first.skip(1), second, mappings, end_of_input);
                assert((first + second).skip(1) =~= first.skip(1) + second);
                let (text, kept) = drained(first.skip(1), mappings, false);
                let (more_text, rest) = drained(kept + second, mappings, end_of_input);
                assert(seq![first[0]] + (text + more_text) =~= (seq![first[0]] + text)
                    + more_text);
            },
        }
    }
}

/// Some data without its carriage returns and line feeds.
pub open spec fn unbroken(data: Seq<u8>) -> Seq<u8> {
    data.filter(|b: u8| b != 0x0d && b != 0x0a)
}

proof fn lemma_unbroken(data: Seq<u8>)
    ensures
        unbroken(data) == unwrapped(data),
{
    let f = |b: u8| b != 0x0d && b != 0x0a;
    let g = |b: u8| !is_line_break(b);
    assert(f =~= g);
}

proof fn lemma_filtered(data: Seq<u8>, i: int)
    requires
        0 <= i < unwrapped(data).len(),
    ensures
        unwrapped(data)[i] != 0x0d && unwrapped(data)[i] != 0x0a,
    decreases data.len(),
{
    reveal(Seq::filter);
    if data.len() > 0 {
        let fewer = data.drop_last();
        if i < unwrapped(fewer).len() {
            lemma_filtered(fewer, i);
        }
    }
}

/// A known path gives way to its native form wherever it stands in a text, with
/// carriage returns and line feeds inside it or without, as long as no longer known
/// path begins there and no known path begins before it. What stands before it
/// stays, and what follows is looked at on its own.
pub proof fn law_known_paths_are_replaced_where_they_stand(
    before: Seq<u8>,
    wrapped: Seq<u8>,
    rest: Seq<u8>,
    mappings: Seq<(Seq<u8>, Seq<u8>)>,
    k: int,
)
    requires
        longest_first(mappings),
        no_path_twice(mappings),
        0 <= k < mappings.len(),
        wrapped.len() > 0,
        wrapped[0] != 0x0d && wrapped[0] != 0x0a,
        wrapped.last() != 0x0d && wrapped.last() != 0x0a,
        unbroken(wrapped) == mappings[k].0,
        forall|i: int, n: int|
            0 <= i < mappings.len() && mappings[i].0.len() > mappings[k].0.len() && 0 <= n <= (
            wrapped + rest).len() ==> unbroken(#[trigger] (wrapped + rest).take(n)) != (
            #[trigger] mappings[i]).0,
        forall|at: int, i: int, n: int|
            0 <= at < before.len() && before[at] != 0x0d && before[at] != 0x0a && 0 <= i
                < mappings.len() && mappings[i].0.len() > 0 && 0 <= n <= (before + wrapped
                + rest).len() - at ==> unbroken(
                #[trigger] (before + wrapped + rest).skip(at).take(n),
            ) != (#[trigger] mappings[i]).0,
    ensures
        replaced(before + wrapped + rest, mappings) == before + mappings[k].1 + replaced(
            rest,
            mappings,
        ),
    decreases before.len(),
{
    let all = before + wrapped + rest;
    if before.len() == 0 {
        let data = wrapped + rest;
        let n = wrapped.len() as int;
        assert(all =~= data);
        lemma_unbroken(wrapped);
        assert(data.take(n) =~= wrapped);
        lemma_first_is_kept(wrapped);
        assert(matches_whole(data, mappings[k].0, n));
        assert forall|i: int, m: int|
            0 <= i < mappings.len() && mappings[i].0.len() > mappings[k].0.len() implies !#[trigger] matches_whole(
            data,
            mappings[i].0,
            m,
        ) by {
            if matches_whole(data, mappings[i].0, m) {
                lemma_unbroken(data.take(m));
                assert(unbroken((wrapped + rest).take(m)) != mappings[i].0);
            }
        }
        law_longest_known_path_wins(data, mappings, k, n);
        assert(data.skip(n) =~= rest);
        assert(before + mappings[k].1 + replaced(rest, mappings) =~= mappings[k].1 + replaced(
            rest,
            mappings,
        ));
    } else {
        assert(all.skip(0) =~= all);
        assert forall|i: int| 0 <= i < mappings.len() implies !decides(
            all,
            (#[trigger] mappings[i]).0,
            true,
        ) by {
            assert forall|n: int| !matches_whole(all, mappings[i].0, n) by {
                if matches_whole(all, mappings[i].0, n) {
                    lemma_unbroken(all.take(n));
                    lemma_filtered(all.take(n), 0);
                    assert(before[0] == all[0]);
                    assert(unbroken(all.skip(0).take(n)) != mappings[i].0);
                }
            }
        }
        lemma_none_decides(all, mappings, true);
        let fewer = before.skip(1);
        assert(all.skip(1) =~= fewer + wrapped + rest);
        assert forall|at: int, i: int, n: int|
            0 <= at < fewer.len() && fewer[at] != 0x0d && fewer[at] != 0x0a && 0 <= i
                < mappings.len() && mappings[i].0.len() > 0 && 0 <= n <= (fewer + wrapped
                + rest).len() - at implies unbroken(
            #[trigger] (fewer + wrapped + rest).skip(at).take(n),
        ) != (#[trigger] mappings[i]).0 by {
            assert(fewer[at] == before[at + 1]);
            assert((fewer + wrapped + rest).skip(at) =~= all.skip(at + 1));
            assert(unbroken(all.skip(at + 1).take(n)) != mappings[i].0);
        }
        law_known_paths_are_replaced_where_they_stand(fewer, wrapped, rest, mappings, k);
        let later = replaced(rest, mappings);
        assert(seq![all[0]] + (fewer + mappings[k].1 + later) =~= before + mappings[k].1 + later);
    }
}

/// A text that begins with no line break keeps its first byte.
proof fn lemma_first_is_kept(data: Seq<u8>)
    requires
        data.len() > 0,
        data[0] != 0x0d && data[0] != 0x0a,
    ensures
        unwrapped(data).len() > 0,
        unwrapped(data)[0] == data[0],
{
    assert(data.take(0) =~= Seq::<u8>::empty());
    assert(unwrapped(data.take(0)) =~= Seq::<u8>::empty()) by {
        reveal(Seq::filter);
    }
    lemma_unwrapped_push(data, 0);
    assert(data.take(data.len() as int) =~= data);
    lemma_unwrapped_take(data, 1, data.len() as int);
    assert(unwrapped(data.take(1))[0] == data[0]);
}

/// What may still become a known path when more data comes is not given out: where
/// the data ends in the beginning of a known path, whole lines of it or not, with
/// line breaks inside it or without, it waits from there on, and what stands before
/// it is given out as it is.
pub proof fn law_beginnings_of_known_paths_wait(
    before: Seq<u8>,
    begun: Seq<u8>,
    path: Seq<u8>,
    native: Seq<u8>,
)
    requires
        begun.len() > 0,
        begun[0] != 0x0d && begun[0] != 0x0a,
        unbroken(begun).len() < path.len(),
        unbroken(begun).is_prefix_of(path),
        forall|i: int| 0 <= i < before.len() ==> #[trigger] before[i] != path[0],
    ensures
        drained(before + begun, seq![(path, native)], false) == (before, begun),
    decreases before.len(),
{
    let mappings = seq![(path, native)];
    let all = before + begun;
    assert(mappings[0] == (path, native));
    if before.len() == 0 {
        assert(all =~= begun);
        lemma_unbroken(begun);
        lemma_first_is_kept(begun);
        assert(begun[0] == path[0]) by {
            assert(path.subrange(0, unbroken(begun).len() as int)[0] == path[0]);
        }
        assert(matches_in_part(begun, path));
        assert forall|n: int| !matches_whole(begun, path, n) by {
            if matches_whole(begun, path, n) {
                lemma_match_is_unique(begun, path, n);
            }
        }
        assert(step(all, mappings, false) is Wait);
    } else {
        assert(all[0] == before[0]);
        assert forall|i: int| 0 <= i < mappings.len() implies !decides(
            all,
            (#[trigger] mappings[i]).0,
            false,
        ) by {}
        lemma_none_decides(all, mappings, false);
        let fewer = before.skip(1);
        assert(all.skip(1) =~= fewer + begun);
        assert forall|i: int| 0 <= i < fewer.len() implies #[trigger] fewer[i] != path[0] by {
            assert(fewer[i] == before[i + 1]);
        }
        law_beginnings_of_known_paths_wait(fewer, begun, path, native);
        assert(seq![all[0]] + fewer =~= before);
    }
}

/// How much of some data is a path: all bytes that make it up, with carriage returns
/// and line feeds inside it, where the data begins with it; and a part where the data
/// ends before it does.
pub proof fn law_how_much_of_a_path_matches(
    found: PathMatch,
    wrapped: Seq<u8>,
    rest: Seq<u8>,
    path: Seq<u8>,
)
    requires
        wrapped.len() > 0,
        wrapped[0] != 0x0d && wrapped[0] != 0x0a,
        found.describes(wrapped + rest, path),
    ensures
        unbroken(wrapped) == path && wrapped.last() != 0x0d && wrapped.last() != 0x0a ==> (
        found matches PathMatch::Full(n) && n == wrapped.len()),
        rest.len() == 0 && unbroken(wrapped).len() < path.len() && unbroken(wrapped).is_prefix_of(
            path,
        ) ==> found is Partial,
        (path.len() == 0 || path[0] != wrapped[0]) ==> found is Mismatch,
{
    let data = wrapped + rest;
    lemma_unbroken(wrapped);
    lemma_first_is_kept(wrapped);
    assert(data[0] == wrapped[0]);
    if unbroken(wrapped) == path && wrapped.last() != 0x0d && wrapped.last() != 0x0a {
        let n = wrapped.len() as int;
        assert(data.take(n) =~= wrapped);
        assert(matches_whole(data, path, n));
        lemma_match_is_unique(data, path, n);
    }
    if rest.len() == 0 && unbroken(wrapped).len() < path.len() && unbroken(wrapped).is_prefix_of(
        path,
    ) {
        assert(data =~= wrapped);
        assert(path.subrange(0, unbroken(wrapped).len() as int)[0] == path[0]);
        assert(matches_in_part(data, path));
        if let PathMatch::Full(n) = found {
            lemma_match_is_unique(data, path, n as int);
        }
    }
}

/// Text in which no known path begins, and which does not end in what may become one,
/// is given out at once and as it is, whether more may come or not.
pub proof fn law_other_text_passes_at_once(
    data: Seq<u8>,
    mappings: Seq<(Seq<u8>, Seq<u8>)>,
    end_of_input: bool,
)
    requires
        forall|i: int|
            0 <= i < mappings.len() ==> (#[trigger] mappings[i]).0.len() > 0 && mappings[i].0[0] != 0x0d
                && mappings[i].0[0] != 0x0a,
        forall|at: int, i: int|
            0 <= at < data.len() && data[at] != 0x0d && data[at] != 0x0a && 0 <= i < mappings.len()
                ==> !(#[trigger] mappings[i]).0.is_prefix_of(unbroken(#[trigger] data.skip(at)))
                && !unbroken(data.skip(at)).is_prefix_of(mappings[i].0),
    ensures
        drained(data, mappings, end_of_input) == (data, Seq::<u8>::empty()),
    decreases data.len(),
{
    if data.len() == 0 {
        assert(data =~= Seq::<u8>::empty());
    } else {
        assert(data.skip(0) =~= data);
        assert forall|i: int| 0 <= i < mappings.len() implies !decides(
            data,
            (#[trigger] mappings[i]).0,
            end_of_input,
        ) by {
            let path = mappings[i].0;
            lemma_unbroken(data);
            if data[0] == path[0] {
                assert(!path.is_prefix_of(unbroken(data.skip(0))));
                assert forall|n: int| !matches_whole(data, path, n) by {
                    if matches_whole(data, path, n) {
                        assert(data.take(data.len() as int) =~= data);
                        lemma_unwrapped_take(data, n, data.len() as int);
                    }
                }
            }
        }
        lemma_none_decides(data, mappings, end_of_input);
        let rest = data.skip(1);
        assert forall|at: int, i: int|
            0 <= at < rest.len() && rest[at] != 0x0d && rest[at] != 0x0a && 0 <= i
                < mappings.len() implies !(#[trigger] mappings[i]).0.is_prefix_of(
            unbroken(#[trigger] rest.skip(at)),
        ) && !unbroken(rest.skip(at)).is_prefix_of(mappings[i].0) by {
            assert(rest[at] == data[at + 1]);
            assert(rest.skip(at) =~= data.skip(at + 1));
        }
        law_other_text_passes_at_once(rest, mappings, end_of_input);
        assert(seq![data[0]] + rest =~= data);
    }
}

} // verus!
