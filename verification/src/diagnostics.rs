//! Redirected TeX output: cutting it into lines, and finding the path in a
//! diagnostic of the form `/path:line:`.
use vstd::prelude::*;
use vstd::slice::slice_subrange;
use crate::bytes::{
    append, copy, find, find_byte, is_digit, is_line_break, lemma_find, lemma_find_is, pair_views,
    COLON, CR, LF, OPEN_PAREN, SLASH,
};
use crate::known_paths::{
    drained, find_known_path, lemma_decision_stays, lemma_same_step, lemma_step_bounds,
    longest_first, no_path_twice, replaced, step, Found, Step,
};

verus! {

/// How long a line is without the line breaks at its end.
pub open spec fn content_end(line: Seq<u8>) -> int
    decreases line.len(),
{
    if line.len() > 0 && is_line_break(line.last()) {
        content_end(line.drop_last())
    } else {
        line.len() as int
    }
}

/// A colon at `colon`, at least one digit, and another colon, all of them
/// before the line breaks at the end.
pub open spec fn line_number_at(line: Seq<u8>, colon: int) -> bool {
    &&& 0 < colon < content_end(line)
    &&& line[colon] == COLON
    &&& exists|next: int|
        {
            &&& colon + 1 < next < content_end(line)
            &&& #[trigger] line[next] == COLON
            &&& forall|i: int| colon < i < next ==> is_digit(#[trigger] line[i])
        }
}

/// Where an absolute path begins at the start of a line, after a parenthesis
/// or without one.
pub open spec fn path_start(line: Seq<u8>) -> Option<int> {
    if line.len() > 0 && line[0] == SLASH {
        Some(0)
    } else if line.len() > 1 && line[0] == OPEN_PAREN && line[1] == SLASH {
        Some(1)
    } else {
        None
    }
}

/// The bytes from `start` to `end` are the path of a diagnostic: an absolute
/// path at the start of the line, up to the first line number.
pub open spec fn is_file_line_path(line: Seq<u8>, start: int, end: int) -> bool {
    &&& path_start(line) == Some(start)
    &&& line_number_at(line, end)
    &&& forall|c: int| c < end ==> !line_number_at(line, c)
}

/// The path of a diagnostic, where the line is one.
pub open spec fn file_line_path(line: Seq<u8>) -> Option<(int, int)> {
    if exists|start: int, end: int| is_file_line_path(line, start, end) {
        Some(choose|start: int, end: int| is_file_line_path(line, start, end))
    } else {
        None
    }
}

proof fn lemma_content_end(line: Seq<u8>)
    ensures
        0 <= content_end(line) <= line.len(),
        content_end(line) > 0 ==> !is_line_break(line[content_end(line) - 1]),
    decreases line.len(),
{
    if line.len() > 0 && is_line_break(line.last()) {
        lemma_content_end(line.drop_last());
    }
}

/// A line has one path at most, and it has at least one byte.
pub proof fn lemma_file_line_path(line: Seq<u8>, start: int, end: int)
    requires
        is_file_line_path(line, start, end),
    ensures
        file_line_path(line) == Some((start, end)),
        0 <= start < end <= line.len(),
        line[start] == SLASH,
{
    lemma_content_end(line);
    let (s, e) = choose|s: int, e: int| is_file_line_path(line, s, e);
    assert(is_file_line_path(line, s, e));
    assert(e == end) by {
        if e < end {
            assert(!line_number_at(line, e));
        }
        if end < e {
            assert(!line_number_at(line, end));
        }
    }
}

/// The length of a line without the line breaks at its end.
pub(crate) fn find_content_end(line: &[u8]) -> (n: usize)
    ensures
        n == content_end(line@),
        n <= line@.len(),
{
    let mut n: usize = line.len();
    assert(line@.take(n as int) =~= line@);
    while n > 0 && (line[n - 1] == CR || line[n - 1] == LF)
        invariant
            n <= line@.len(),
            content_end(line@) == content_end(line@.take(n as int)),
        decreases n,
    {
        assert(line@.take(n as int).drop_last() =~= line@.take(n - 1));
        n -= 1;
    }
    n
}

/// Finds the path in a leading `/path:line:` diagnostic, after `(` or not.
pub fn file_line_path_span(line: &[u8]) -> (r: Option<(usize, usize)>)
    ensures
        match r {
            Some((start, end)) => file_line_path(line@) == Some((start as int, end as int))
                && start < end <= line@.len() && line@[start as int] == SLASH,
            None => file_line_path(line@) is None,
        },
{
    let content: usize = find_content_end(line);
    let mut colon: usize = 1;
    while colon < content
        invariant
            1 <= colon,
            content == content_end(line@),
            content <= line@.len(),
            path_start(line@) is Some ==> forall|c: int| c < colon ==> !line_number_at(line@, c),
        decreases content - colon,
    {
        if line[colon] == COLON {
            let mut cursor: usize = colon + 1;
            while cursor < content && 0x30 <= line[cursor] && line[cursor] <= 0x39
                invariant
                    content <= line@.len(),
                    colon < cursor <= content,
                    forall|i: int| colon < i < cursor ==> is_digit(#[trigger] line@[i]),
                decreases content - cursor,
            {
                cursor += 1;
            }
            if cursor != colon + 1 && cursor < content && line[cursor] == COLON {
                assert(line@[cursor as int] == COLON);
                assert(line_number_at(line@, colon as int));
                if line[0] == SLASH {
                    proof {
                        assert(is_file_line_path(line@, 0, colon as int));
                        lemma_file_line_path(line@, 0, colon as int);
                    }
                    return Some((0, colon));
                }
                if line[0] == OPEN_PAREN && line[1] == SLASH {
                    proof {
                        assert(is_file_line_path(line@, 1, colon as int));
                        lemma_file_line_path(line@, 1, colon as int);
                    }
                    return Some((1, colon));
                }
            } else {
                assert(!line_number_at(line@, colon as int)) by {
                    if line_number_at(line@, colon as int) {
                        let next = choose|next: int|
                            {
                                &&& colon + 1 < next < content_end(line@)
                                &&& #[trigger] line@[next] == COLON
                                &&& forall|i: int|
                                    colon < i < next ==> is_digit(#[trigger] line@[i])
                            };
                        if next < cursor {
                            assert(is_digit(line@[next]));
                        } else if cursor < next {
                            assert(is_digit(line@[cursor as int]));
                        }
                    }
                }
            }
        }
        colon += 1;
    }
    assert(file_line_path(line@) is None) by {
        if exists|s: int, e: int| is_file_line_path(line@, s, e) {
            let (s, e) = choose|s: int, e: int| is_file_line_path(line@, s, e);
            assert(!line_number_at(line@, e));
        }
    }
    None
}

/// The complete lines of `data`, each with the line feed that ends it, and what
/// stands after the last of them.
pub open spec fn complete_lines(data: Seq<u8>) -> (Seq<Seq<u8>>, Seq<u8>)
    decreases data.len(),
{
    let n = find(data, LF);
    if 0 <= n < data.len() {
        let (lines, rest) = complete_lines(data.skip(n + 1));
        (seq![data.take(n + 1)] + lines, rest)
    } else {
        (Seq::empty(), data)
    }
}

/// All lines of `data`, with the one that no line feed ends.
pub open spec fn all_lines(data: Seq<u8>) -> Seq<Seq<u8>> {
    let (lines, rest) = complete_lines(data);
    if rest.len() > 0 {
        lines.push(rest)
    } else {
        lines
    }
}

/// A redirected stream, between two lines.
pub struct DiagnosticStream {
    /// What has been read and not been given out.
    pub path_buffer: Vec<u8>,
    /// The end of the native form of a known path, where that held a line feed
    /// and the line up to it has been given out.
    pub line_buffer: Vec<u8>,
    /// Nothing more will be read.
    pub ended: bool,
}

/// What a redirected stream holds.
#[verifier::ext_equal]
pub struct StreamState {
    pub path_buffer: Seq<u8>,
    pub line_buffer: Seq<u8>,
    pub ended: bool,
}

impl View for DiagnosticStream {
    type V = StreamState;

    open spec fn view(&self) -> StreamState {
        StreamState {
            path_buffer: self.path_buffer@,
            line_buffer: self.line_buffer@,
            ended: self.ended,
        }
    }
}

/// A stream that holds some data, none of which has been looked at.
pub open spec fn unread(data: Seq<u8>, ended: bool) -> StreamState {
    StreamState { path_buffer: data, line_buffer: Seq::empty(), ended }
}

/// What a stream holds after one more read. A read of no bytes is the end of the
/// input.
pub open spec fn after_read(state: StreamState, input: Seq<u8>) -> StreamState {
    StreamState {
        path_buffer: state.path_buffer + input,
        line_buffer: state.line_buffer,
        ended: input.len() == 0,
    }
}

/// The first line of `text` and of `data` after it, with the known paths of
/// `data` replaced, and what the stream then holds. There is none where the data
/// ends before the line does, or in what may become a known path; at the end of
/// the input whatever is left is a line.
pub open spec fn line_from(
    text: Seq<u8>,
    data: Seq<u8>,
    ended: bool,
    known: Seq<(Seq<u8>, Seq<u8>)>,
) -> Option<(Seq<u8>, StreamState)>
    decreases data.len(),
{
    let n = find(text, LF);
    if n < text.len() {
        Some(
            (
                text.take(n + 1),
                StreamState { path_buffer: data, line_buffer: text.skip(n + 1), ended },
            ),
        )
    } else if data.len() == 0 {
        if ended && text.len() > 0 {
            Some((text, unread(Seq::empty(), ended)))
        } else {
            None
        }
    } else {
        match step(data, known, ended) {
            Step::Replace(n, native) => if 0 < n <= data.len() {
                line_from(text + native, data.skip(n), ended, known)
            } else {
                None
            },
            Step::Wait => None,
            Step::Keep => line_from(text.push(data[0]), data.skip(1), ended, known),
        }
    }
}

/// The next line of a stream, and what the stream then holds.
pub open spec fn next_line(
    state: StreamState,
    known: Seq<(Seq<u8>, Seq<u8>)>,
) -> Option<(Seq<u8>, StreamState)> {
    line_from(state.line_buffer, state.path_buffer, state.ended, known)
}

impl DiagnosticStream {
    /// A stream of which nothing has been read.
    pub fn new() -> (r: Self)
        ensures
            r@ == unread(Seq::empty(), false),
    {
        DiagnosticStream { path_buffer: Vec::new(), line_buffer: Vec::new(), ended: false }
    }
}

/// Takes in what one read of a redirected stream gave, which is nothing at the
/// end of the input. The lines that it made complete are then taken out one by
/// one, so that each has the paths replaced that are known when it is written.
pub fn forward_diagnostics(stream: &mut DiagnosticStream, input: &[u8])
    ensures
        final(stream)@ == after_read(old(stream)@, input@),
{
    append(&mut stream.path_buffer, input);
    stream.ended = input.len() == 0;
}

/// Takes the next complete line out of a stream, with the known paths replaced.
/// Where there is none, the stream is left as it is, so that paths learned in the
/// meantime are found in what it holds.
pub fn forward_complete_lines(
    stream: &mut DiagnosticStream,
    known: &[(Vec<u8>, Vec<u8>)],
) -> (line: Option<Vec<u8>>)
    ensures
        match next_line(old(stream)@, pair_views(known@)) {
            Some((text, next)) => line matches Some(l) && l@ == text && final(stream)@ == next,
            None => line is None && *final(stream) == *old(stream),
        },
{
    let ghost mappings = pair_views(known@);
    let ghost data = stream.path_buffer@;
    let ended: bool = stream.ended;
    let mut text: Vec<u8> = copy(&stream.line_buffer);
    let mut cursor: usize = 0;
    let mut searched: usize = 0;
    assert(data.skip(0) =~= data);
    loop
        invariant
            searched <= text@.len(),
            forall|i: int| 0 <= i < searched ==> text@[i] != LF,
            *stream == *old(stream),
            stream.path_buffer@ == data,
            stream.ended == ended,
            mappings == pair_views(known@),
            cursor <= data.len(),
            next_line(stream@, mappings) == line_from(
                text@,
                data.skip(cursor as int),
                ended,
                mappings,
            ),
        decreases data.len() - cursor,
    {
        let fresh: &[u8] = slice_subrange(text.as_slice(), searched, text.len());
        let n: usize = searched + find_byte(fresh, LF);
        proof {
            lemma_find(fresh@, LF);
            assert forall|i: int| searched <= i < n implies text@[i] != LF by {
                assert(fresh@[i - searched] == text@[i]);
            }
            lemma_find_is(text@, LF, n as int);
        }
        if n < text.len() {
            let rest: Vec<u8> = text.split_off(n + 1);
            let kept: Vec<u8> = stream.path_buffer.split_off(cursor);
            assert(kept@ =~= data.skip(cursor as int));
            stream.path_buffer = kept;
            stream.line_buffer = rest;
            return Some(text);
        }
        searched = n;
        if cursor == stream.path_buffer.len() {
            if ended && text.len() > 0 {
                stream.path_buffer = Vec::new();
                stream.line_buffer = Vec::new();
                assert(stream@ =~= unread(Seq::empty(), ended));
                return Some(text);
            }
            return None;
        }
        let rest: &[u8] = slice_subrange(
            stream.path_buffer.as_slice(),
            cursor,
            stream.path_buffer.len(),
        );
        assert(rest@ =~= data.skip(cursor as int));
        match find_known_path(rest, known, ended) {
            Found::Path(n, at) => {
                append(&mut text, known[at].1.as_slice());
                assert(rest@.skip(n as int) =~= data.skip(cursor + n));
                cursor += n;
            },
            Found::Beginning => {
                return None;
            },
            Found::Nothing => {
                text.push(rest[0]);
                assert(rest@.skip(1) =~= data.skip(cursor + 1));
                cursor += 1;
            },
        }
    }
}

/// Lines are cut, not changed: put together again they are the data.
pub proof fn law_lines_make_up_the_data(data: Seq<u8>)
    ensures
        all_lines(data).flatten() == data,
    decreases data.len(),
{
    let n = find(data, LF);
    lemma_find(data, LF);
    if n < data.len() {
        law_lines_make_up_the_data(data.skip(n + 1));
        let later = all_lines(data.skip(n + 1));
        assert(all_lines(data) =~= seq![data.take(n + 1)] + later);
        assert(all_lines(data).drop_first() =~= later);
        assert(all_lines(data).first() == data.take(n + 1));
        assert(data.take(n + 1) + data.skip(n + 1) =~= data);
    } else if data.len() > 0 {
        reveal_with_fuel(Seq::flatten, 2);
        assert(all_lines(data) =~= seq![data]);
        assert(seq![data].drop_first() =~= Seq::<Seq<u8>>::empty());
        assert(data + Seq::<u8>::empty() =~= data);
    } else {
        assert(all_lines(data) =~= Seq::<Seq<u8>>::empty());
        assert(data =~= Seq::<u8>::empty());
    }
}

/// A line that is complete stays what it is when more is read.
pub proof fn lemma_line_stays(
    text: Seq<u8>,
    data: Seq<u8>,
    more: Seq<u8>,
    ended: bool,
    known: Seq<(Seq<u8>, Seq<u8>)>,
)
    ensures
        line_from(text, data, false, known) matches Some((line, next)) ==> line_from(
            text,
            data + more,
            ended,
            known,
        ) == Some(
            (
                line,
                StreamState {
                    path_buffer: next.path_buffer + more,
                    line_buffer: next.line_buffer,
                    ended,
                },
            ),
        ),
    decreases data.len(),
{
    let n = find(text, LF);
    lemma_find(text, LF);
    if n >= text.len() && data.len() > 0 {
        lemma_step_bounds(data, known, false);
        match step(data, known, false) {
            Step::Replace(n, native) => {
                lemma_decision_stays(data, more, known, ended);
                lemma_line_stays(text + native, data.skip(n), more, ended, known);
                assert((data + more).skip(n) =~= data.skip(n) + more);
            },
            Step::Wait => {},
            Step::Keep => {
                lemma_decision_stays(data, more, known, ended);
                lemma_line_stays(text.push(data[0]), data.skip(1), more, ended, known);
                assert((data + more).skip(1) =~= data.skip(1) + more);
            },
        }
    }
}

/// The order of mappings whose paths are of one length does not matter to the
/// lines of a stream either.
pub proof fn lemma_same_line(
    text: Seq<u8>,
    data: Seq<u8>,
    ended: bool,
    one: Seq<(Seq<u8>, Seq<u8>)>,
    other: Seq<(Seq<u8>, Seq<u8>)>,
)
    requires
        longest_first(one),
        longest_first(other),
        no_path_twice(one),
        forall|m: (Seq<u8>, Seq<u8>)| one.contains(m) <==> other.contains(m),
    ensures
        line_from(text, data, ended, one) == line_from(text, data, ended, other),
    decreases data.len(),
{
    if data.len() > 0 {
        lemma_same_step(data, one, other, ended);
        lemma_step_bounds(data, one, ended);
        match step(data, one, ended) {
            Step::Replace(n, native) => {
                lemma_same_line(text + native, data.skip(n), ended, one, other);
            },
            Step::Wait => {},
            Step::Keep => {
                lemma_same_line(text.push(data[0]), data.skip(1), ended, one, other);
            },
        }
    }
}

/// Taking a line out of a stream leaves less in it.
pub proof fn lemma_line_leaves_less(
    text: Seq<u8>,
    data: Seq<u8>,
    ended: bool,
    known: Seq<(Seq<u8>, Seq<u8>)>,
)
    ensures
        line_from(text, data, ended, known) matches Some((line, next)) ==> line.len() > 0
            && next.ended == ended && (next.path_buffer.len() < data.len() || (
        next.path_buffer.len() == data.len() && next.line_buffer.len() < text.len())),
    decreases data.len(),
{
    let n = find(text, LF);
    lemma_find(text, LF);
    if n >= text.len() && data.len() > 0 {
        lemma_step_bounds(data, known, ended);
        match step(data, known, ended) {
            Step::Replace(n, native) => {
                lemma_line_leaves_less(text + native, data.skip(n), ended, known);
            },
            Step::Wait => {},
            Step::Keep => {
                lemma_line_leaves_less(text.push(data[0]), data.skip(1), ended, known);
            },
        }
    }
}

/// At the end of the input, the next line is the first line of what the stream
/// holds with its known paths replaced, and the stream then holds the rest.
pub proof fn lemma_first_line(
    text: Seq<u8>,
    data: Seq<u8>,
    known: Seq<(Seq<u8>, Seq<u8>)>,
)
    ensures
        ({
            let whole = text + replaced(data, known);
            match line_from(text, data, true, known) {
                Some((line, next)) => all_lines(whole) == seq![line] + all_lines(
                    next.line_buffer + replaced(next.path_buffer, known),
                ),
                None => whole.len() == 0,
            }
        }),
    decreases data.len(),
{
    let whole = text + replaced(data, known);
    let n = find(text, LF);
    lemma_find(text, LF);
    if n < text.len() {
        assert forall|i: int| 0 <= i < n implies whole[i] != LF by {
            assert(whole[i] == text[i]);
        }
        lemma_find_is(whole, LF, n);
        assert(whole.take(n + 1) =~= text.take(n + 1));
        assert(whole.skip(n + 1) =~= text.skip(n + 1) + replaced(data, known));
        let rest = whole.skip(n + 1);
        assert(all_lines(whole) =~= seq![text.take(n + 1)] + all_lines(rest));
    } else if data.len() == 0 {
        assert(whole =~= text);
        if text.len() > 0 {
            let nothing = Seq::<u8>::empty() + replaced(Seq::empty(), known);
            assert(nothing =~= Seq::<u8>::empty());
            lemma_find(nothing, LF);
            assert(all_lines(nothing) =~= Seq::<Seq<u8>>::empty());
            assert(all_lines(text) =~= seq![text] + Seq::<Seq<u8>>::empty());
        }
    } else {
        lemma_step_bounds(data, known, true);
        match step(data, known, true) {
            Step::Replace(n, native) => {
                lemma_first_line(text + native, data.skip(n), known);
                let later = replaced(data.skip(n), known);
                assert((text + native) + later =~= text + (native + later));
            },
            Step::Wait => {},
            Step::Keep => {
                lemma_first_line(text.push(data[0]), data.skip(1), known);
                let later = replaced(data.skip(1), known);
                assert(text.push(data[0]) + later =~= text + (seq![data[0]] + later));
            },
        }
    }
}

/// All that a stream still gives out once nothing more is read.
pub open spec fn lines_left(
    state: StreamState,
    known: Seq<(Seq<u8>, Seq<u8>)>,
) -> Seq<Seq<u8>>
    decreases state.path_buffer.len(), state.line_buffer.len(),
{
    match next_line(state, known) {
        Some((line, next)) => if next.path_buffer.len() < state.path_buffer.len() || (
        next.path_buffer.len() == state.path_buffer.len() && next.line_buffer.len()
            < state.line_buffer.len()) {
            seq![line] + lines_left(next, known)
        } else {
            Seq::empty()
        },
        None => Seq::empty(),
    }
}

/// At the end of the input a stream gives out the lines of all that it holds,
/// with the known paths replaced.
pub proof fn law_stream_is_forwarded_whole(
    state: StreamState,
    known: Seq<(Seq<u8>, Seq<u8>)>,
)
    requires
        state.ended,
    ensures
        lines_left(state, known) == all_lines(
            state.line_buffer + replaced(state.path_buffer, known),
        ),
    decreases state.path_buffer.len(), state.line_buffer.len(),
{
    lemma_first_line(state.line_buffer, state.path_buffer, known);
    lemma_line_leaves_less(state.line_buffer, state.path_buffer, true, known);
    let whole = state.line_buffer + replaced(state.path_buffer, known);
    match next_line(state, known) {
        Some((line, next)) => {
            law_stream_is_forwarded_whole(next, known);
        },
        None => {
            lemma_find(whole, LF);
            assert(all_lines(whole) =~= Seq::<Seq<u8>>::empty());
        },
    }
}

/// A line that can be taken out of a stream before more is read is the one that
/// would be taken out of it after that.
pub proof fn law_reading_more_changes_no_line(
    state: StreamState,
    more: Seq<u8>,
    ended: bool,
    known: Seq<(Seq<u8>, Seq<u8>)>,
)
    requires
        !state.ended,
    ensures
        next_line(state, known) matches Some((line, next)) ==> next_line(
            StreamState {
                path_buffer: state.path_buffer + more,
                line_buffer: state.line_buffer,
                ended,
            },
            known,
        ) == Some(
            (
                line,
                StreamState {
                    path_buffer: next.path_buffer + more,
                    line_buffer: next.line_buffer,
                    ended,
                },
            ),
        ),
{
    lemma_line_stays(state.line_buffer, state.path_buffer, more, ended, known);
}

/// What ends a line of any content is left out of it, and nothing else: of a text
/// and the carriage returns and line feeds after it, the text is the content.
pub proof fn law_content_ends_before_the_line_breaks(text: Seq<u8>, breaks: Seq<u8>)
    requires
        text.len() > 0 ==> text.last() != 0x0d && text.last() != 0x0a,
        forall|i: int| 0 <= i < breaks.len() ==> #[trigger] breaks[i] == 0x0d || breaks[i] == 0x0a,
    ensures
        content_end(text + breaks) == text.len(),
    decreases breaks.len(),
{
    let line = text + breaks;
    if breaks.len() > 0 {
        let fewer = breaks.drop_last();
        assert(line.last() == breaks[breaks.len() - 1]);
        assert(line.drop_last() =~= text + fewer);
        assert forall|i: int| 0 <= i < fewer.len() implies #[trigger] fewer[i] == 0x0d || fewer[i]
            == 0x0a by {
            assert(fewer[i] == breaks[i]);
        }
        law_content_ends_before_the_line_breaks(text, fewer);
    } else {
        assert(line =~= text);
    }
}

/// A byte that is no line break stands within the content of its line.
proof fn lemma_within_content(line: Seq<u8>, i: int)
    requires
        0 <= i < line.len(),
        line[i] != 0x0d && line[i] != 0x0a,
    ensures
        i < content_end(line),
    decreases line.len(),
{
    if is_line_break(line.last()) {
        assert(line[line.len() - 1] == line.last());
        lemma_within_content(line.drop_last(), i);
    }
}

/// The path of a diagnostic is found, whatever its line number: a line that begins
/// with an absolute path without a colon, after a parenthesis or not, and goes on
/// with a colon, digits and another colon, has that path.
pub proof fn law_path_before_any_line_number_is_found(
    path: Seq<u8>,
    digits: Seq<u8>,
    rest: Seq<u8>,
)
    requires
        path.len() > 0,
        path[0] == 0x2f,
        forall|i: int| 0 <= i < path.len() ==> #[trigger] path[i] != 0x3a,
        digits.len() > 0,
        forall|i: int| 0 <= i < digits.len() ==> 0x30 <= #[trigger] digits[i] <= 0x39,
    ensures
        ({
            let tail = seq![0x3au8] + digits + seq![0x3au8] + rest;
            &&& file_line_path(path + tail) == Some((0int, path.len() as int))
            &&& file_line_path(seq![0x28u8] + path + tail) == Some(
                (1int, path.len() as int + 1),
            )
        }),
{
    let tail = seq![0x3au8] + digits + seq![0x3au8] + rest;
    lemma_line_number_is_found(Seq::empty(), path, digits, rest);
    assert(Seq::<u8>::empty() + path + tail =~= path + tail);
    lemma_line_number_is_found(seq![0x28u8], path, digits, rest);
}

proof fn lemma_line_number_is_found(
    head: Seq<u8>,
    path: Seq<u8>,
    digits: Seq<u8>,
    rest: Seq<u8>,
)
    requires
        head == Seq::<u8>::empty() || head == seq![0x28u8],
        path.len() > 0,
        path[0] == 0x2f,
        forall|i: int| 0 <= i < path.len() ==> #[trigger] path[i] != 0x3a,
        digits.len() > 0,
        forall|i: int| 0 <= i < digits.len() ==> 0x30 <= #[trigger] digits[i] <= 0x39,
    ensures
        file_line_path(head + path + (seq![0x3au8] + digits + seq![0x3au8] + rest)) == Some(
            (head.len() as int, head.len() as int + path.len()),
        ),
{
    let line = head + path + (seq![0x3au8] + digits + seq![0x3au8] + rest);
    let start = head.len() as int;
    let colon = start + path.len();
    let next = colon + 1 + digits.len();
    assert(line[start] == path[0]);
    assert(line[colon] == 0x3a);
    assert(line[next] == 0x3a);
    lemma_within_content(line, next);
    assert forall|i: int| colon < i < next implies is_digit(#[trigger] line[i]) by {
        assert(line[i] == digits[i - colon - 1]);
    }
    assert(line_number_at(line, colon));
    assert forall|c: int| c < colon implies !line_number_at(line, c) by {
        if 0 < c < colon {
            if c < start {
                assert(false);
            } else {
                assert(line[c] == path[c - start]);
            }
        }
    }
    assert(path_start(line) == Some(start));
    assert(is_file_line_path(line, start, colon));
    lemma_file_line_path(line, start, colon);
}

/// What is taken for the path of a diagnostic stands at the beginning of its line,
/// after a parenthesis or not, begins with a slash, and has a colon, digits and
/// another colon after it; no place before that has them. Where a line has them
/// after such a beginning, a path is found.
pub proof fn law_only_a_path_before_a_line_number_is_found(line: Seq<u8>)
    ensures
        match file_line_path(line) {
            Some((start, end)) => {
                &&& start == 0 || (start == 1 && line[0] == 0x28)
                &&& start < end < line.len()
                &&& line[start] == 0x2f
                &&& numbered(line, end)
                &&& forall|c: int| 0 < c < end ==> !numbered(line, c)
            },
            None => (line.len() > 0 && line[0] == 0x2f) || (line.len() > 1 && line[0] == 0x28
                && line[1] == 0x2f) ==> forall|c: int| 0 < c < line.len() ==> !numbered(line, c),
        },
{
    lemma_content_end(line);
    assert forall|c: int| 0 < c < line.len() implies numbered(line, c) == line_number_at(
        line,
        c,
    ) by {
        if numbered(line, c) {
            let next = choose|next: int|
                c + 1 < next < line.len() && #[trigger] line[next] == 0x3a && forall|i: int|
                    c < i < next ==> 0x30 <= #[trigger] line[i] <= 0x39;
            lemma_within_content(line, next);
            assert(line[next] == COLON);
            assert forall|i: int| c < i < next implies is_digit(#[trigger] line[i]) by {}
        }
        if line_number_at(line, c) {
            let next = choose|next: int|
                {
                    &&& c + 1 < next < content_end(line)
                    &&& #[trigger] line[next] == COLON
                    &&& forall|i: int| c < i < next ==> is_digit(#[trigger] line[i])
                };
            assert forall|i: int| c < i < next implies 0x30 <= #[trigger] line[i] <= 0x39 by {
                assert(is_digit(line[i]));
            }
            assert(line[next] == 0x3a);
        }
    }
    match file_line_path(line) {
        Some((start, end)) => {
            let (s, e) = choose|s: int, e: int| is_file_line_path(line, s, e);
            assert(is_file_line_path(line, s, e));
            assert forall|c: int| 0 < c < end implies !numbered(line, c) by {
                assert(!line_number_at(line, c));
            }
        },
        None => {
            if exists|c: int| 0 < c < line.len() && numbered(line, c) {
                let c = choose|c: int| 0 < c < line.len() && numbered(line, c);
                if path_start(line) is Some {
                    lemma_first_number(line, c);
                }
            }
        },
    }
}

/// A colon at `colon`, then digits, then another colon.
pub open spec fn numbered(line: Seq<u8>, colon: int) -> bool {
    &&& line[colon] == 0x3a
    &&& exists|next: int|
        colon + 1 < next < line.len() && #[trigger] line[next] == 0x3a && forall|i: int|
            colon < i < next ==> 0x30 <= #[trigger] line[i] <= 0x39
}

/// Where there is a line number there is a first one.
proof fn lemma_first_number(line: Seq<u8>, c: int)
    requires
        path_start(line) is Some,
        line_number_at(line, c),
    ensures
        exists|s: int, e: int| is_file_line_path(line, s, e),
    decreases c,
{
    if exists|d: int| d < c && line_number_at(line, d) {
        let d = choose|d: int| d < c && line_number_at(line, d);
        lemma_first_number(line, d);
    } else {
        assert(is_file_line_path(line, path_start(line)->0, c));
    }
}

/// The lines of some data are cut after its line feeds and nowhere else: none is
/// empty, a line feed stands at the end of each but perhaps the last, and in no
/// other place. Put together they are the data.
pub proof fn law_lines_end_at_line_feeds(data: Seq<u8>)
    ensures
        all_lines(data).flatten() == data,
        forall|k: int|
            0 <= k < all_lines(data).len() ==> {
                let line = #[trigger] all_lines(data)[k];
                &&& line.len() > 0
                &&& forall|i: int| 0 <= i < line.len() - 1 ==> line[i] != 0x0a
                &&& k + 1 < all_lines(data).len() ==> line.last() == 0x0a
            },
    decreases data.len(),
{
    law_lines_make_up_the_data(data);
    let n = find(data, LF);
    lemma_find(data, LF);
    let all = all_lines(data);
    if n < data.len() {
        let rest = data.skip(n + 1);
        law_lines_end_at_line_feeds(rest);
        let later = all_lines(rest);
        assert(all =~= seq![data.take(n + 1)] + later);
        assert forall|k: int| 0 <= k < all.len() implies {
            let line = #[trigger] all[k];
            &&& line.len() > 0
            &&& forall|i: int| 0 <= i < line.len() - 1 ==> line[i] != 0x0a
            &&& k + 1 < all.len() ==> line.last() == 0x0a
        } by {
            if k > 0 {
                assert(all[k] == later[k - 1]);
            } else {
                assert(all[0] == data.take(n + 1));
            }
        }
    } else if data.len() > 0 {
        assert(all =~= seq![data]);
    } else {
        assert(all =~= Seq::<Seq<u8>>::empty());
    }
}

/// A line that is complete does not wait for more to be read: where no known path can
/// begin in it, it is the next line of its stream, with its line feed, and what came
/// after it is still to be looked at.
pub proof fn law_complete_lines_do_not_wait(
    line: Seq<u8>,
    rest: Seq<u8>,
    ended: bool,
    known: Seq<(Seq<u8>, Seq<u8>)>,
)
    requires
        forall|i: int| 0 <= i < line.len() ==> #[trigger] line[i] != 0x0a,
        forall|i: int, k: int|
            0 <= i < line.len() && 0 <= k < known.len() && known[k].0.len() > 0 ==> #[trigger] line[i]
                != (#[trigger] known[k]).0[0],
        forall|k: int|
            0 <= k < known.len() && known[k].0.len() > 0 ==> (#[trigger] known[k]).0[0] != 0x0a,
    ensures
        next_line(
            StreamState {
                path_buffer: line + (seq![0x0au8] + rest),
                line_buffer: Seq::empty(),
                ended,
            },
            known,
        ) == Some(
            (
                line.push(0x0a),
                StreamState { path_buffer: rest, line_buffer: Seq::empty(), ended },
            ),
        ),
{
    assert(Seq::<u8>::empty() + line =~= line);
    lemma_kept_line(Seq::empty(), line, rest, ended, known);
}

proof fn lemma_kept_line(
    text: Seq<u8>,
    line: Seq<u8>,
    rest: Seq<u8>,
    ended: bool,
    known: Seq<(Seq<u8>, Seq<u8>)>,
)
    requires
        forall|i: int| 0 <= i < text.len() ==> #[trigger] text[i] != 0x0a,
        forall|i: int| 0 <= i < line.len() ==> #[trigger] line[i] != 0x0a,
        forall|i: int, k: int|
            0 <= i < line.len() && 0 <= k < known.len() && known[k].0.len() > 0 ==> #[trigger] line[i]
                != (#[trigger] known[k]).0[0],
        forall|k: int|
            0 <= k < known.len() && known[k].0.len() > 0 ==> (#[trigger] known[k]).0[0] != 0x0a,
    ensures
        line_from(text, line + (seq![0x0au8] + rest), ended, known) == Some(
            (
                (text + line).push(0x0a),
                StreamState { path_buffer: rest, line_buffer: Seq::empty(), ended },
            ),
        ),
    decreases line.len(),
{
    let data = line + (seq![0x0au8] + rest);
    lemma_find_is(text, LF, text.len() as int);
    lemma_first_byte_is_kept(data, known, ended);
    reveal_with_fuel(line_from, 2);
    let next = text.push(data[0]);
    if line.len() == 0 {
        assert(data[0] == 0x0a);
        assert(data.skip(1) =~= rest);
        assert forall|i: int| 0 <= i < text.len() implies next[i] != LF by {
            assert(next[i] == text[i]);
        }
        lemma_find_is(next, LF, text.len() as int);
        assert(next.take(text.len() as int + 1) =~= (text + line).push(0x0a));
        assert(next.skip(text.len() as int + 1) =~= Seq::<u8>::empty());
    } else {
        let fewer = line.skip(1);
        assert(data[0] == line[0]);
        assert(data.skip(1) =~= fewer + (seq![0x0au8] + rest));
        assert forall|i: int| 0 <= i < next.len() implies #[trigger] next[i] != 0x0a by {
            if i < text.len() {
                assert(next[i] == text[i]);
            } else {
                assert(next[i] == line[0]);
            }
        }
        assert forall|i: int| 0 <= i < fewer.len() implies #[trigger] fewer[i] != 0x0a by {
            assert(fewer[i] == line[i + 1]);
        }
        assert forall|i: int, k: int|
            0 <= i < fewer.len() && 0 <= k < known.len() && known[k].0.len() > 0 implies #[trigger] fewer[i]
            != (#[trigger] known[k]).0[0] by {
            assert(fewer[i] == line[i + 1]);
        }
        lemma_kept_line(next, fewer, rest, ended, known);
        assert(next + fewer =~= text + line);
    }
}

/// A byte that begins no known path is kept.
proof fn lemma_first_byte_is_kept(
    data: Seq<u8>,
    known: Seq<(Seq<u8>, Seq<u8>)>,
    ended: bool,
)
    requires
        data.len() > 0,
        forall|k: int|
            0 <= k < known.len() && known[k].0.len() > 0 ==> data[0] != (#[trigger] known[k]).0[0],
    ensures
        step(data, known, ended) is Keep,
    decreases known.len(),
{
    if known.len() > 0 {
        let rest = known.drop_first();
        assert(known[0].0.len() > 0 ==> data[0] != known[0].0[0]);
        assert forall|k: int|
            0 <= k < rest.len() && rest[k].0.len() > 0 implies data[0] != (
        #[trigger] rest[k]).0[0] by {
            assert(rest[k] == known[k + 1]);
        }
        lemma_first_byte_is_kept(data, rest, ended);
    }
}

/// A stream gives out a line as soon as it can: just where there is a line feed in
/// what is safe to give out of it, and then up to the first of them. What may become
/// a known path is all that holds a line back.
pub proof fn law_lines_are_given_out_as_soon_as_they_can_be(
    state: StreamState,
    known: Seq<(Seq<u8>, Seq<u8>)>,
)
    requires
        !state.ended,
    ensures
        ({
            let text = state.line_buffer + drained(state.path_buffer, known, false).0;
            match next_line(state, known) {
                Some((line, next)) => {
                    &&& line.is_prefix_of(text)
                    &&& line.len() > 0 && line.last() == 0x0a
                    &&& forall|i: int| 0 <= i < line.len() - 1 ==> line[i] != 0x0a
                },
                None => !text.contains(0x0a),
            }
        }),
{
    lemma_line_of_safe_text(state.line_buffer, state.path_buffer, known);
}

proof fn lemma_line_of_safe_text(
    text: Seq<u8>,
    data: Seq<u8>,
    known: Seq<(Seq<u8>, Seq<u8>)>,
)
    ensures
        ({
            let whole = text + drained(data, known, false).0;
            match line_from(text, data, false, known) {
                Some((line, next)) => {
                    &&& line.is_prefix_of(whole)
                    &&& line.len() > 0 && line.last() == 0x0a
                    &&& forall|i: int| 0 <= i < line.len() - 1 ==> line[i] != 0x0a
                },
                None => !whole.contains(0x0a),
            }
        }),
    decreases data.len(),
{
    let whole = text + drained(data, known, false).0;
    let n = find(text, LF);
    lemma_find(text, LF);
    if n < text.len() {
        let line = text.take(n + 1);
        assert(line =~= whole.subrange(0, n + 1));
    } else if data.len() == 0 {
        assert(whole =~= text);
    } else {
        lemma_step_bounds(data, known, false);
        match step(data, known, false) {
            Step::Replace(n, native) => {
                lemma_line_of_safe_text(text + native, data.skip(n), known);
                let later = drained(data.skip(n), known, false).0;
                assert((text + native) + later =~= text + (native + later));
            },
            Step::Wait => {
                assert(whole =~= text);
            },
            Step::Keep => {
                lemma_line_of_safe_text(text.push(data[0]), data.skip(1), known);
                let later = drained(data.skip(1), known, false).0;
                assert(text.push(data[0]) + later =~= text + (seq![data[0]] + later));
            },
        }
    }
}

} // verus!
