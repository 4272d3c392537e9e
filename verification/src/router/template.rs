//! Path templates: literal characters and, between `<` and `>`, the names of
//! parameters. A template is read by a scanner of two states.

use crate::router::error::RouterBuilderError;
use vstd::prelude::*;

verus! {

/// The mathematical content of a segment.
pub enum SegmentView {
    Literal(char),
    Parameter(Seq<char>),
}

/// One segment of a template: a literal character, or a parameter with its
/// name.
#[derive(Debug)]
pub enum Segment {
    Literal(char),
    Parameter(String),
}

impl View for Segment {
    type V = SegmentView;

    open spec fn view(&self) -> SegmentView {
        match self {
            Segment::Literal(c) => SegmentView::Literal(*c),
            Segment::Parameter(name) => SegmentView::Parameter(name@),
        }
    }
}

/// The contents of a sequence of segments.
pub open spec fn segment_views(segments: Seq<Segment>) -> Seq<SegmentView> {
    Seq::new(segments.len(), |i: int| segments[i]@)
}

/// The mathematical content of the scanner's state.
pub enum ScanStateView {
    Literal,
    CapturingParameter { name_buffer: Seq<char> },
}

/// The state of the scanner: it reads literal characters, or it is inside a
/// parameter and has read the start of its name.
#[derive(Debug)]
pub enum ScanState {
    Literal,
    CapturingParameter { name_buffer: String },
}

impl View for ScanState {
    type V = ScanStateView;

    open spec fn view(&self) -> ScanStateView {
        match self {
            ScanState::Literal => ScanStateView::Literal,
            ScanState::CapturingParameter { name_buffer } => ScanStateView::CapturingParameter {
                name_buffer: name_buffer@,
            },
        }
    }
}

/// What the scanner does with one character: the state that it goes to and the
/// segment that it has finished, if it has finished one; or nothing, where the
/// character cannot stand there.
pub open spec fn scan_step(state: ScanStateView, c: char) -> Option<
    (ScanStateView, Option<SegmentView>),
> {
    match state {
        ScanStateView::Literal => if c == '<' {
            Some((ScanStateView::CapturingParameter { name_buffer: Seq::empty() }, None))
        } else if c == '>' {
            None
        } else {
            Some((ScanStateView::Literal, Some(SegmentView::Literal(c))))
        },
        ScanStateView::CapturingParameter { name_buffer } => if c == '>' {
            Some((ScanStateView::Literal, Some(SegmentView::Parameter(name_buffer))))
        } else if c == '<' {
            None
        } else {
            Some((ScanStateView::CapturingParameter { name_buffer: name_buffer.push(c) }, None))
        },
    }
}

/// The scanner's state and the segments that it has finished after it has
/// read all of `text` from the literal state; or nothing, where a character of
/// `text` could not stand where it stood.
pub open spec fn scan(text: Seq<char>) -> Option<(ScanStateView, Seq<SegmentView>)>
    decreases text.len(),
{
    if text.len() == 0 {
        Some((ScanStateView::Literal, Seq::empty()))
    } else {
        match scan(text.drop_last()) {
            Some((state, segments)) => match scan_step(state, text.last()) {
                Some((next, Some(segment))) => Some((next, segments.push(segment))),
                Some((next, None)) => Some((next, segments)),
                None => None,
            },
            None => None,
        }
    }
}

/// The segments of a template; or nothing, where the template is malformed:
/// the scanner refused a character, or the text ended inside a parameter.
pub open spec fn template_segments(template: Seq<char>) -> Option<Seq<SegmentView>> {
    match scan(template) {
        Some((ScanStateView::Literal, segments)) => Some(segments),
        _ => None,
    }
}

/// The text of a sequence of segments: a literal is its character, a
/// parameter is its name between `<` and `>`.
pub open spec fn render(segments: Seq<SegmentView>) -> Seq<char>
    decreases segments.len(),
{
    if segments.len() == 0 {
        Seq::empty()
    } else {
        render(segments.drop_last()) + match segments.last() {
            SegmentView::Literal(c) => seq![c],
            SegmentView::Parameter(name) => seq!['<'] + name + seq!['>'],
        }
    }
}

/// The text that the scanner has read is the text of the segments that it has
/// finished, followed, inside a parameter, by `<` and the start of the name.
proof fn lemma_scan_renders(text: Seq<char>)
    requires
        scan(text) is Some,
    ensures
        ({
            let (state, segments) = scan(text).unwrap();
            text == render(segments) + match state {
                ScanStateView::Literal => Seq::<char>::empty(),
                ScanStateView::CapturingParameter { name_buffer } => seq!['<'] + name_buffer,
            }
        }),
    decreases text.len(),
{
    if text.len() == 0 {
        assert(text =~= render(Seq::empty()) + Seq::<char>::empty());
    } else {
        let front = text.drop_last();
        lemma_scan_renders(front);
        let (state, segments) = scan(front).unwrap();
        let c = text.last();
        assert(text =~= front.push(c));
        let (next, done) = scan_step(state, c).unwrap();
        match done {
            Some(segment) => {
                assert(segments.push(segment).drop_last() =~= segments);
                match state {
                    ScanStateView::Literal => {
                        assert(text =~= render(segments) + seq![c] + Seq::<char>::empty());
                    },
                    ScanStateView::CapturingParameter { name_buffer } => {
                        assert(text =~= render(segments) + (seq!['<'] + name_buffer + seq!['>'])
                            + Seq::<char>::empty());
                    },
                }
            },
            None => {
                match state {
                    ScanStateView::Literal => {
                        assert(text =~= render(segments) + (seq!['<'] + Seq::<char>::empty()));
                    },
                    ScanStateView::CapturingParameter { name_buffer } => {
                        assert(text =~= render(segments) + (seq!['<'] + name_buffer.push(c)));
                    },
                }
            },
        }
    }
}

/// A well-formed template is the text of its segments.
pub proof fn lemma_template_is_rendered(template: Seq<char>)
    requires
        template_segments(template) is Some,
    ensures
        render(template_segments(template).unwrap()) == template,
{
    lemma_scan_renders(template);
    assert(render(template_segments(template).unwrap()) + Seq::<char>::empty() =~= render(
        template_segments(template).unwrap(),
    ));
}

/// Whether the segments can be written as a template: no literal is `<` or
/// `>`, and no name holds one.
pub open spec fn writable(segments: Seq<SegmentView>) -> bool {
    forall|k: int|
        0 <= k < segments.len() ==> match #[trigger] segments[k] {
            SegmentView::Literal(c) => c != '<' && c != '>',
            SegmentView::Parameter(name) => !name.contains('<') && !name.contains('>'),
        }
}

/// Inside a parameter the scanner reads the name character by character.
proof fn lemma_scan_name(text: Seq<char>, name: Seq<char>, segments: Seq<SegmentView>, n: int)
    requires
        scan(text) == Some((ScanStateView::Literal, segments)),
        !name.contains('<'),
        !name.contains('>'),
        0 <= n <= name.len(),
    ensures
        scan(text + seq!['<'] + name.take(n)) == Some(
            (ScanStateView::CapturingParameter { name_buffer: name.take(n) }, segments),
        ),
    decreases n,
{
    let read = text + seq!['<'] + name.take(n);
    if n == 0 {
        assert(read.drop_last() =~= text);
        assert(read.last() == '<');
        assert(name.take(0) =~= Seq::<char>::empty());
    } else {
        lemma_scan_name(text, name, segments, n - 1);
        assert(read.drop_last() =~= text + seq!['<'] + name.take(n - 1));
        assert(read.last() == name[n - 1]);
        assert(name.contains(name[n - 1]));
        assert(name.take(n - 1).push(name[n - 1]) =~= name.take(n));
    }
}

/// The text of segments is a template of these segments: to write segments
/// and to read them back changes nothing.
pub proof fn lemma_rendered_is_template(segments: Seq<SegmentView>)
    requires
        writable(segments),
    ensures
        scan(render(segments)) == Some((ScanStateView::Literal, segments)),
        template_segments(render(segments)) == Some(segments),
    decreases segments.len(),
{
    if segments.len() > 0 {
        let front = segments.drop_last();
        assert forall|k: int| 0 <= k < front.len() implies match #[trigger] front[k] {
            SegmentView::Literal(c) => c != '<' && c != '>',
            SegmentView::Parameter(name) => !name.contains('<') && !name.contains('>'),
        } by {
            assert(front[k] == segments[k]);
        }
        lemma_rendered_is_template(front);
        let text = render(front);
        let whole = render(segments);
        assert(segments[segments.len() - 1] == segments.last());
        assert(front.push(segments.last()) =~= segments);
        match segments.last() {
            SegmentView::Literal(c) => {
                assert(whole.drop_last() =~= text);
                assert(whole.last() == c);
            },
            SegmentView::Parameter(name) => {
                lemma_scan_name(text, name, front, name.len() as int);
                assert(name.take(name.len() as int) =~= name);
                assert(whole.drop_last() =~= text + seq!['<'] + name);
                assert(whole.last() == '>');
            },
        }
    }
}

/// What the scanner has read holds no bracket where none may stand: the
/// segments that it has finished can be written, and so can the start of the
/// name that it is in.
proof fn lemma_scan_is_writable(text: Seq<char>)
    requires
        scan(text) is Some,
    ensures
        writable(scan(text).unwrap().1),
        scan(text).unwrap().0 matches ScanStateView::CapturingParameter { name_buffer }
            ==> !name_buffer.contains('<') && !name_buffer.contains('>'),
    decreases text.len(),
{
    if text.len() > 0 {
        lemma_scan_is_writable(text.drop_last());
        let (state, segments) = scan(text.drop_last()).unwrap();
        let c = text.last();
        let (next, done) = scan_step(state, c).unwrap();
        match next {
            ScanStateView::CapturingParameter { name_buffer } => {
                if name_buffer.len() > 0 {
                    let front = name_buffer.drop_last();
                    assert(front.push(c) =~= name_buffer);
                    assert forall|bracket: char|
                        (bracket == '<' || bracket == '>') implies !name_buffer.contains(
                        bracket,
                    ) by {
                        if name_buffer.contains(bracket) {
                            let j = choose|j: int|
                                0 <= j < name_buffer.len() && name_buffer[j] == bracket;
                            if j < front.len() {
                                assert(front[j] == bracket);
                                assert(front.contains(bracket));
                            }
                        }
                    }
                }
            },
            ScanStateView::Literal => {},
        }
        let after = scan(text).unwrap().1;
        assert forall|k: int| 0 <= k < after.len() implies match #[trigger] after[k] {
            SegmentView::Literal(c) => c != '<' && c != '>',
            SegmentView::Parameter(name) => !name.contains('<') && !name.contains('>'),
        } by {
            if k < segments.len() {
                assert(after[k] == segments[k]);
            }
        }
    }
}

/// The segments of a template can be written.
pub proof fn lemma_template_is_writable(template: Seq<char>)
    requires
        template_segments(template) is Some,
    ensures
        writable(template_segments(template).unwrap()),
{
    lemma_scan_is_writable(template);
}

/// Whether two of the segments are parameters of one name.
pub open spec fn has_duplicate_names(segments: Seq<SegmentView>) -> bool {
    exists|i: int, j: int|
        0 <= i < j < segments.len() && #[trigger] segments[i] is Parameter
            && #[trigger] segments[j] is Parameter && segments[i]->Parameter_0
            == segments[j]->Parameter_0
}

impl ScanState {
    /// The state in which the scanner starts.
    pub fn new() -> (state: Self)
        ensures
            state@ == ScanStateView::Literal,
    {
        ScanState::Literal
    }

    /// Reads one character: gives the state that follows and the segment that
    /// the character has finished, if it has finished one. A `>` outside a
    /// parameter and a `<` inside one are refused.
    pub fn feed(self, c: char) -> (result: Result<(ScanState, Option<Segment>), RouterBuilderError>)
        ensures
            match result {
                Ok((next, done)) => scan_step(self@, c) == Some(
                    (
                        next@,
                        match done {
                            Some(segment) => Some(segment@),
                            None => None,
                        },
                    ),
                ),
                Err(e) => e == RouterBuilderError::InvalidPath && scan_step(self@, c) is None,
            },
    {
        match self {
            ScanState::Literal => {
                if c == '<' {
                    Ok((ScanState::CapturingParameter { name_buffer: String::new() }, None))
                } else if c == '>' {
                    Err(RouterBuilderError::InvalidPath)
                } else {
                    Ok((ScanState::Literal, Some(Segment::Literal(c))))
                }
            },
            ScanState::CapturingParameter { name_buffer } => {
                if c == '>' {
                    Ok((ScanState::Literal, Some(Segment::Parameter(name_buffer))))
                } else if c == '<' {
                    Err(RouterBuilderError::InvalidPath)
                } else {
                    let mut name_buffer = name_buffer;
                    crate::router::state::push_char(&mut name_buffer, c);
                    Ok((ScanState::CapturingParameter { name_buffer }, None))
                }
            },
        }
    }

    /// Whether a template may end in this state: not inside a parameter.
    pub fn is_final(&self) -> (b: bool)
        ensures
            b == (self@ is Literal),
    {
        match self {
            ScanState::Literal => true,
            ScanState::CapturingParameter { .. } => false,
        }
    }
}

/// Reads a template into its segments. A malformed template is refused.
pub fn parse_template(template: &str) -> (result: Result<Vec<Segment>, RouterBuilderError>)
    ensures
        match result {
            Ok(segments) => template_segments(template@) == Some(segment_views(segments@)),
            Err(e) => e == RouterBuilderError::InvalidPath && template_segments(template@) is None,
        },
{
    let mut state = ScanState::new();
    let mut segments: Vec<Segment> = Vec::new();
    proof {
        assert(template@.take(0) =~= Seq::<char>::empty());
        assert(segment_views(segments@) =~= Seq::<SegmentView>::empty());
    }
    for c in it: template.chars()
        invariant
            it.seq() == template@,
            scan(template@.take(it.index() as int)) == Some((state@, segment_views(segments@))),
    {
        let ghost read = template@.take(it.index() as int);
        let ghost longer = template@.take(it.index() + 1);
        proof {
            assert(longer.drop_last() =~= read);
            assert(longer.last() == c);
        }
        let ghost before = segment_views(segments@);
        match state.feed(c) {
            Ok((next, done)) => {
                state = next;
                match done {
                    Some(segment) => {
                        segments.push(segment);
                        proof {
                            assert(segment_views(segments@) =~= before.push(segment@));
                        }
                    },
                    None => {},
                }
            },
            Err(e) => {
                proof {
                    lemma_scan_refusal_stays(template@, it.index() + 1);
                }
                return Err(e);
            },
        }
    }
    proof {
        assert(template@.take(template@.len() as int) =~= template@);
    }
    if state.is_final() {
        Ok(segments)
    } else {
        Err(RouterBuilderError::InvalidPath)
    }
}

/// Once the scanner has refused a character, it has refused the text, however
/// it goes on.
proof fn lemma_scan_refusal_stays(text: Seq<char>, n: int)
    requires
        0 <= n <= text.len(),
        scan(text.take(n)) is None,
    ensures
        scan(text) is None,
    decreases text.len() - n,
{
    if n < text.len() {
        assert(text.take(n + 1).drop_last() =~= text.take(n));
        lemma_scan_refusal_stays(text, n + 1);
    } else {
        assert(text.take(n) =~= text);
    }
}

/// Whether two of the segments are parameters of one name.
pub fn find_duplicate_names(segments: &Vec<Segment>) -> (found: bool)
    ensures
        found == has_duplicate_names(segment_views(segments@)),
{
    let ghost views = segment_views(segments@);
    let mut j: usize = 0;
    while j < segments.len()
        invariant
            j <= segments@.len(),
            views == segment_views(segments@),
            forall|a: int, b: int|
                0 <= a < b < j && #[trigger] views[a] is Parameter
                    && #[trigger] views[b] is Parameter ==> views[a]->Parameter_0
                    != views[b]->Parameter_0,
        decreases segments@.len() - j,
    {
        match &segments[j] {
            Segment::Literal(_) => {},
            Segment::Parameter(name) => {
                let mut i: usize = 0;
                while i < j
                    invariant
                        i <= j < segments@.len(),
                        views == segment_views(segments@),
                        views[j as int] == SegmentView::Parameter(name@),
                        forall|a: int|
                            0 <= a < i && #[trigger] views[a] is Parameter ==> views[a]->Parameter_0
                                != name@,
                    decreases j - i,
                {
                    match &segments[i] {
                        Segment::Literal(_) => {},
                        Segment::Parameter(other) => {
                            if *other == *name {
                                proof {
                                    assert(views[i as int] is Parameter);
                                    assert(views[j as int] is Parameter);
                                }
                                return true;
                            }
                        },
                    }
                    i = i + 1;
                }
            },
        }
        j = j + 1;
    }
    false
}

} // verus!
