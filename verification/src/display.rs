//! Rich text: a character buffer together with formatting spans.

use vstd::prelude::*;
use vstd::string::StrSliceExecFns;
use vstd::string::StringExecFns;

verus! {

/// Formatting modifiers for string spans.
#[derive(Copy, Clone, Debug, PartialEq, Eq, Structural)]
pub enum Formatting {
    /// Bold print.
    Bold,
    /// Italic print.
    Italic,
    /// Do not hyphenate, e.g. for URLs. Carries no ANSI rendering; it is a
    /// layout hint for external line breakers.
    NoHyphenation,
}

/// One committed formatting span: the half-open character range
/// `start .. end` of the owning buffer, printed with modifier `kind`.
#[derive(Copy, Clone, Debug, PartialEq, Eq, Structural)]
pub struct FormatSpan {
    /// First character offset covered by the span.
    pub start: usize,
    /// One past the last character offset covered by the span.
    pub end: usize,
    /// The formatting modifier applied over the range.
    pub kind: Formatting,
}

/// The span `s` with both endpoints moved up by `o`.
pub open spec fn span_shifted(s: FormatSpan, o: int) -> FormatSpan {
    (FormatSpan { start: (s.start + o) as usize, end: (s.end + o) as usize, kind: s.kind })
}

/// Moves a format span's indices up by `o`.
pub fn offset_format_range(r: FormatSpan, o: usize) -> (res: FormatSpan)
    requires
        r.end + o <= usize::MAX,
        r.start <= r.end,
    ensures
        res == span_shifted(r, o as int),
{
    FormatSpan { start: r.start + o, end: r.end + o, kind: r.kind }
}

/// The sequence `spans` with every span's endpoints moved up by `o`.
pub open spec fn spans_shifted(spans: Seq<FormatSpan>, o: int) -> Seq<FormatSpan> {
    spans.map_values(|s: FormatSpan| span_shifted(s, o))
}

/// The pending spans `pend` closed at offset `end`, as committed spans.
pub open spec fn spans_closed(pend: Seq<(usize, Formatting)>, end: int) -> Seq<FormatSpan> {
    pend.map_values(|p: (usize, Formatting)| (FormatSpan { start: p.0, end: end as usize, kind: p.1 }))
}

/// The view of an optional string piece: its characters if present, else
/// the empty sequence.
pub open spec fn opt_str_view(o: Option<&str>) -> Seq<char> {
    match o {
        Some(s) => s@,
        None => Seq::empty(),
    }
}

/// A printable string with a list of formatting modifications.
///
/// All offsets count characters of `value`, and every committed or pending
/// span must lie within the buffer; see [`DisplayString::wf`].
#[derive(Clone, Debug)]
pub struct DisplayString {
    /// The string content.
    pub value: String,
    /// The committed formatting spans over `value`.
    pub formatting: Vec<FormatSpan>,
    /// Spans opened by [`DisplayString::start_format`] but not yet closed:
    /// the character offset where each one starts, and its kind.
    pub pending_formatting: Vec<(usize, Formatting)>,
}

impl DisplayString {
    /// Well-formedness: every committed span is a valid half-open range of
    /// the buffer, every pending span starts inside the buffer, and no two
    /// pending spans share a formatting kind.
    pub open spec fn wf(&self) -> bool {
        &&& forall|i: int|
            0 <= i < self.formatting@.len() ==> (#[trigger] self.formatting@[i]).start
                <= self.formatting@[i].end <= self.value@.len()
        &&& forall|i: int|
            0 <= i < self.pending_formatting@.len() ==> (#[trigger] self.pending_formatting@[i]).0
                <= self.value@.len()
        &&& forall|i: int, j: int|
            0 <= i < j < self.pending_formatting@.len() ==> (#[trigger] self.pending_formatting@[i]).1
                != (#[trigger] self.pending_formatting@[j]).1
    }

    /// Constructs a new, empty `DisplayString`.
    pub fn new() -> (res: Self)
        ensures
            res.value@ == Seq::<char>::empty(),
            res.formatting@ == Seq::<FormatSpan>::empty(),
            res.pending_formatting@ == Seq::<(usize, Formatting)>::empty(),
            res.wf(),
    {
        DisplayString { value: String::new(), formatting: Vec::new(), pending_formatting: Vec::new() }
    }

    /// Uses a string reference to create a display string.
    pub fn from_str(s: &str) -> (res: Self)
        ensures
            res.value@ == s@,
            res.formatting@ == Seq::<FormatSpan>::empty(),
            res.pending_formatting@ == Seq::<(usize, Formatting)>::empty(),
            res.wf(),
    {
        DisplayString { value: s.to_owned(), formatting: Vec::new(), pending_formatting: Vec::new() }
    }

    /// Uses a `String` to create a display string.
    pub fn from_string(s: String) -> (res: Self)
        ensures
            res.value@ == s@,
            res.formatting@ == Seq::<FormatSpan>::empty(),
            res.pending_formatting@ == Seq::<(usize, Formatting)>::empty(),
            res.wf(),
    {
        DisplayString { value: s, formatting: Vec::new(), pending_formatting: Vec::new() }
    }

    /// Gets the length of the string in characters.
    pub fn len(&self) -> (l: usize)
        ensures
            l as nat == self.value@.len(),
    {
        self.value.as_str().unicode_len()
    }

    /// Is the string empty?
    pub fn is_empty(&self) -> (r: bool)
        ensures
            r == (self.value@.len() == 0),
    {
        self.value.as_str().is_empty()
    }

    /// Gets the last character, if any.
    pub fn last(&self) -> (r: Option<char>)
        ensures
            match r {
                Some(c) => self.value@.len() > 0 && c == self.value@.last(),
                None => self.value@.len() == 0,
            },
    {
        let l = self.value.as_str().unicode_len();
        if l == 0 {
            None
        } else {
            Some(self.value.as_str().get_char(l - 1))
        }
    }

    /// Pushes a character onto the string.
    pub fn push(&mut self, ch: char)
        ensures
            final(self).value@ == old(self).value@.push(ch),
            final(self).formatting@ == old(self).formatting@,
            final(self).pending_formatting@ == old(self).pending_formatting@,
            old(self).wf() ==> final(self).wf(),
    {
        crate::strutil::push_char(&mut self.value, ch);
    }

    /// Appends a plain string slice, leaving all spans as they are.
    pub fn push_str(&mut self, s: &str)
        ensures
            final(self).value@ == old(self).value@ + s@,
            final(self).formatting@ == old(self).formatting@,
            final(self).pending_formatting@ == old(self).pending_formatting@,
            old(self).wf() ==> final(self).wf(),
    {
        self.value.append(s);
    }

    /// Opens a formatting span of kind `f` at the current end of the buffer.
    /// At most one span per kind may be pending at a time.
    pub fn start_format(&mut self, f: Formatting)
        requires
            forall|i: int|
                0 <= i < old(self).pending_formatting@.len() ==> (#[trigger] old(
                    self,
                ).pending_formatting@[i]).1 != f,
        ensures
            final(self).value@ == old(self).value@,
            final(self).formatting@ == old(self).formatting@,
            final(self).pending_formatting@ == old(self).pending_formatting@.push(
                ((old(self).value@.len() as usize), f),
            ),
            old(self).wf() ==> final(self).wf(),
    {
        let l = self.value.as_str().unicode_len();
        self.pending_formatting.push((l, f));
    }

    /// Closes every pending span at the current end of the buffer and moves
    /// it to the committed spans; the pending set is cleared.
    pub fn commit_formats(&mut self)
        ensures
            final(self).value@ == old(self).value@,
            final(self).pending_formatting@ == Seq::<(usize, Formatting)>::empty(),
            final(self).formatting@ == old(self).formatting@ + spans_closed(
                old(self).pending_formatting@,
                old(self).value@.len() as int,
            ),
            old(self).wf() ==> final(self).wf(),
    {
        let l = self.value.as_str().unicode_len();
        let n = self.pending_formatting.len();
        let ghost fmt0 = self.formatting@;
        let ghost pend0 = self.pending_formatting@;
        let mut i: usize = 0;
        while i < n
            invariant
                i <= n,
                n == self.pending_formatting@.len(),
                l as nat == self.value@.len(),
                fmt0 == old(self).formatting@,
                pend0 == old(self).pending_formatting@,
                self.value@ == old(self).value@,
                self.pending_formatting@ == pend0,
                self.formatting@ == fmt0 + spans_closed(pend0.subrange(0, i as int), l as int),
            decreases n - i,
        {
            let p = self.pending_formatting[i];
            self.formatting.push(FormatSpan { start: p.0, end: l, kind: p.1 });
            proof {
                assert(spans_closed(pend0.subrange(0, i as int + 1), l as int) =~= spans_closed(
                    pend0.subrange(0, i as int),
                    l as int,
                ).push(FormatSpan { start: p.0, end: l, kind: p.1 }));
                assert(self.formatting@ =~= fmt0 + spans_closed(
                    pend0.subrange(0, i as int + 1),
                    l as int,
                ));
            }
            i += 1;
        }
        proof {
            assert(pend0.subrange(0, n as int) =~= pend0);
            assert(spans_closed(pend0, l as int) =~= spans_closed(
                pend0,
                old(self).value@.len() as int,
            ));
        }
        self.pending_formatting.clear();
    }

    /// Appends another `DisplayString`: the other's committed spans are
    /// shifted by this buffer's current length and merged; the other's
    /// pending spans are not carried across.
    pub fn append(&mut self, other: &DisplayString)
        requires
            old(self).wf(),
            other.wf(),
        ensures
            final(self).value@ == old(self).value@ + other.value@,
            final(self).formatting@ == old(self).formatting@ + spans_shifted(
                other.formatting@,
                old(self).value@.len() as int,
            ),
            final(self).pending_formatting@ == old(self).pending_formatting@,
            final(self).wf(),
    {
        let o = self.value.as_str().unicode_len();
        self.value.append(other.value.as_str());
        // The new buffer's length is a usize, which bounds every shifted
        // offset below.
        let total = self.value.as_str().unicode_len();
        assert(total as nat == o as nat + other.value@.len());
        let ghost fmt0 = self.formatting@;
        let n = other.formatting.len();
        let mut i: usize = 0;
        while i < n
            invariant
                i <= n,
                n == other.formatting@.len(),
                other.wf(),
                fmt0 == old(self).formatting@,
                o as nat == old(self).value@.len(),
                o + other.value@.len() <= usize::MAX,
                self.value@ == old(self).value@ + other.value@,
                self.pending_formatting@ == old(self).pending_formatting@,
                self.formatting@ == fmt0 + spans_shifted(
                    other.formatting@.subrange(0, i as int),
                    o as int,
                ),
            decreases n - i,
        {
            let s = other.formatting[i];
            self.formatting.push(FormatSpan { start: s.start + o, end: s.end + o, kind: s.kind });
            proof {
                let spans = other.formatting@;
                assert(spans_shifted(spans.subrange(0, i as int + 1), o as int) =~= spans_shifted(
                    spans.subrange(0, i as int),
                    o as int,
                ).push(span_shifted(spans[i as int], o as int)));
                assert(self.formatting@ =~= fmt0 + spans_shifted(
                    spans.subrange(0, i as int + 1),
                    o as int,
                ));
            }
            i += 1;
        }
        proof {
            assert(other.formatting@.subrange(0, n as int) =~= other.formatting@);
            assert(spans_shifted(other.formatting@, o as int) =~= spans_shifted(
                other.formatting@,
                old(self).value@.len() as int,
            ));
            assert forall|k: int| 0 <= k < self.formatting@.len() implies (
            #[trigger] self.formatting@[k]).start <= self.formatting@[k].end
                <= self.value@.len() by {
                if k >= old(self).formatting@.len() {
                    let m = k - old(self).formatting@.len();
                    assert(self.formatting@[k] == span_shifted(other.formatting@[m], o as int));
                }
            }
        }
    }

    /// Appends `item` surrounded by `prefix` and `postfix` when it is
    /// present; appends nothing otherwise.
    pub fn add_if_some(&mut self, item: Option<&str>, prefix: Option<&str>, postfix: Option<&str>)
        ensures
            final(self).value@ == old(self).value@ + (if item is Some {
                opt_str_view(prefix) + opt_str_view(item) + opt_str_view(postfix)
            } else {
                Seq::<char>::empty()
            }),
            final(self).formatting@ == old(self).formatting@,
            final(self).pending_formatting@ == old(self).pending_formatting@,
            old(self).wf() ==> final(self).wf(),
    {
        if let Some(it) = item {
            if let Some(p) = prefix {
                self.value.append(p);
            }
            self.value.append(it);
            if let Some(p) = postfix {
                self.value.append(p);
            }
            assert(self.value@ =~= old(self).value@ + (opt_str_view(prefix) + opt_str_view(
                item,
            ) + opt_str_view(postfix)));
        } else {
            assert(self.value@ =~= old(self).value@ + Seq::<char>::empty());
        }
    }
}

/// The start and end events of every span that the ANSI renderer prints:
/// for each span that is not `NoHyphenation`, one `(kind, start, false)`
/// event and one `(kind, end, true)` event, in span order.
pub open spec fn span_events(spans: Seq<FormatSpan>) -> Seq<(Formatting, usize, bool)>
    decreases spans.len(),
{
    if spans.len() == 0 {
        Seq::empty()
    } else {
        let s = spans.last();
        span_events(spans.drop_last()) + (if s.kind == Formatting::NoHyphenation {
            Seq::empty()
        } else {
            seq![(s.kind, s.start, false), (s.kind, s.end, true)]
        })
    }
}

/// Inserts `e` into `s` behind every event whose position is at least
/// `e`'s position: the insertion step of a stable descending sort.
pub open spec fn insert_desc(
    s: Seq<(Formatting, usize, bool)>,
    e: (Formatting, usize, bool),
) -> Seq<(Formatting, usize, bool)>
    decreases s.len(),
{
    if s.len() == 0 {
        seq![e]
    } else if s[0].1 >= e.1 {
        seq![s[0]] + insert_desc(s.drop_first(), e)
    } else {
        seq![e] + s
    }
}

/// Stable sort of events by position, highest first.
pub open spec fn sort_desc(s: Seq<(Formatting, usize, bool)>) -> Seq<(Formatting, usize, bool)>
    decreases s.len(),
{
    if s.len() == 0 {
        Seq::empty()
    } else {
        insert_desc(sort_desc(s.drop_last()), s.last())
    }
}

/// Positions never increase along the sequence.
pub open spec fn is_sorted_desc(s: Seq<(Formatting, usize, bool)>) -> bool {
    forall|i: int, j: int| 0 <= i <= j < s.len() ==> (#[trigger] s[i]).1 >= (#[trigger] s[j]).1
}

/// Every event's position is at most `b`.
pub open spec fn events_within(s: Seq<(Formatting, usize, bool)>, b: int) -> bool {
    forall|i: int| 0 <= i < s.len() ==> (#[trigger] s[i]).1 <= b
}

/// The escape code that the renderer prints for one event: a reset for an
/// end event, the kind's own code for a start event.
pub open spec fn ansi_code(e: (Formatting, usize, bool)) -> Seq<char> {
    if e.2 {
        "\x1b[0m"@
    } else if e.0 == Formatting::Bold {
        "\x1b[1m"@
    } else {
        "\x1b[3m"@
    }
}

/// The renderer's back-to-front sweep: `evs` is walked from the highest
/// position down, and before each event's code the text between the event
/// and the cursor `pointer` is put back; `acc` is what is already assembled
/// to the right of the cursor.
pub open spec fn render_events(
    text: Seq<char>,
    evs: Seq<(Formatting, usize, bool)>,
    pointer: int,
    acc: Seq<char>,
) -> Seq<char>
    decreases evs.len(),
{
    if evs.len() == 0 {
        text.subrange(0, pointer) + acc
    } else {
        let e = evs[0];
        render_events(
            text,
            evs.drop_first(),
            e.1 as int,
            ansi_code(e) + text.subrange(e.1 as int, pointer) + acc,
        )
    }
}

/// What [`DisplayString::print_ansi_vt100`] returns: the text with each
/// committed, non-`NoHyphenation` span wrapped in escape markers, assembled
/// back to front over the stably sorted event list.
pub open spec fn spec_render_ansi(text: Seq<char>, spans: Seq<FormatSpan>) -> Seq<char> {
    render_events(text, sort_desc(span_events(spans)), text.len() as int, Seq::empty())
}

/// When the first `j` events of `s` have positions at least `e`'s and the
/// `j`-th (if any) has a smaller one, inserting `e` stably lands exactly at
/// index `j`.
proof fn lemma_insert_desc_at(s: Seq<(Formatting, usize, bool)>, e: (Formatting, usize, bool), j: int)
    requires
        0 <= j <= s.len(),
        forall|k: int| 0 <= k < j ==> (#[trigger] s[k]).1 >= e.1,
        j < s.len() ==> s[j].1 < e.1,
    ensures
        insert_desc(s, e) == s.insert(j, e),
    decreases j,
{
    if j == 0 {
        if s.len() == 0 {
            assert(insert_desc(s, e) =~= s.insert(0, e));
        } else {
            assert(s[0].1 < e.1);
            assert(insert_desc(s, e) =~= s.insert(0, e));
        }
    } else {
        assert(s[0].1 >= e.1);
        lemma_insert_desc_at(s.drop_first(), e, j - 1);
        assert(insert_desc(s, e) == seq![s[0]] + s.drop_first().insert(j - 1, e));
        assert(seq![s[0]] + s.drop_first().insert(j - 1, e) =~= s.insert(j, e));
    }
}

/// Inserting into a descending sequence at the stable position keeps it
/// descending.
proof fn lemma_insert_at_sorted(s: Seq<(Formatting, usize, bool)>, e: (Formatting, usize, bool), j: int)
    requires
        0 <= j <= s.len(),
        is_sorted_desc(s),
        forall|k: int| 0 <= k < j ==> (#[trigger] s[k]).1 >= e.1,
        j < s.len() ==> s[j].1 < e.1,
    ensures
        is_sorted_desc(s.insert(j, e)),
{
    let t = s.insert(j, e);
    assert forall|a: int, b: int| 0 <= a <= b < t.len() implies (#[trigger] t[a]).1 >= (
    #[trigger] t[b]).1 by {
        if a < j {
            assert(t[a] == s[a]);
        } else if a == j {
            assert(t[a] == e);
        } else {
            assert(t[a] == s[a - 1]);
        }
        if b < j {
            assert(t[b] == s[b]);
        } else if b == j {
            assert(t[b] == e);
        } else {
            assert(t[b] == s[b - 1]);
        }
    }
}

impl DisplayString {
    /// Applies the committed formatting as ANSI / VT100 control sequences
    /// and returns the formatted string.
    ///
    /// Each end event prints a full reset code, which also switches off any
    /// other span still open at that point; this reproduces the renderer's
    /// historical behaviour for overlapping spans.
    #[verifier::loop_isolation(false)]
    pub fn print_ansi_vt100(&self) -> (res: String)
        requires
            self.wf(),
        ensures
            res@ == spec_render_ansi(self.value@, self.formatting@),
    {
        let text_len = self.value.as_str().unicode_len();
        let mut start_end: Vec<(Formatting, usize, bool)> = Vec::new();
        let nf = self.formatting.len();
        let mut i: usize = 0;
        while i < nf
            invariant
                i <= nf,
                start_end@ == span_events(self.formatting@.subrange(0, i as int)),
                events_within(start_end@, text_len as int),
            decreases nf - i,
        {
            let item = self.formatting[i];
            if !(item.kind == Formatting::NoHyphenation) {
                start_end.push((item.kind, item.start, false));
                start_end.push((item.kind, item.end, true));
            }
            proof {
                let spans = self.formatting@;
                assert(spans.subrange(0, i as int + 1).drop_last() =~= spans.subrange(0, i as int));
                assert(spans.subrange(0, i as int + 1).last() == spans[i as int]);
                assert(start_end@ =~= span_events(spans.subrange(0, i as int + 1)));
            }
            i += 1;
        }
        proof {
            assert(self.formatting@.subrange(0, nf as int) =~= self.formatting@);
        }
        let ne = start_end.len();
        let mut sorted: Vec<(Formatting, usize, bool)> = Vec::new();
        let mut i: usize = 0;
        while i < ne
            invariant
                i <= ne,
                sorted@ == sort_desc(start_end@.subrange(0, i as int)),
                is_sorted_desc(sorted@),
                events_within(sorted@, text_len as int),
            decreases ne - i,
        {
            let e = start_end[i];
            let mut j: usize = 0;
            while j < sorted.len() && sorted[j].1 >= e.1
                invariant
                    j <= sorted@.len(),
                    forall|k: int| 0 <= k < j ==> (#[trigger] sorted@[k]).1 >= e.1,
                decreases sorted@.len() - j,
            {
                j += 1;
            }
            proof {
                lemma_insert_desc_at(sorted@, e, j as int);
                lemma_insert_at_sorted(sorted@, e, j as int);
                let evs = start_end@;
                assert(evs.subrange(0, i as int + 1).drop_last() =~= evs.subrange(0, i as int));
                assert(evs.subrange(0, i as int + 1).last() == evs[i as int]);
            }
            sorted.insert(j, e);
            i += 1;
        }
        proof {
            assert(start_end@.subrange(0, ne as int) =~= start_end@);
        }
        let mut res = String::new();
        let mut pointer = text_len;
        let ns = sorted.len();
        proof {
            assert(sorted@.subrange(0, ns as int) =~= sorted@);
        }
        let mut k: usize = 0;
        while k < ns
            invariant
                k <= ns,
                pointer <= text_len,
                k < ns ==> sorted@[k as int].1 <= pointer,
                render_events(self.value@, sorted@, text_len as int, Seq::empty())
                    == render_events(
                    self.value@,
                    sorted@.subrange(k as int, ns as int),
                    pointer as int,
                    res@,
                ),
            decreases ns - k,
        {
            let e = sorted[k];
            let piece = self.value.as_str().substring_char(e.1, pointer);
            let code: &str = if e.2 {
                "\x1b[0m"
            } else if e.0 == Formatting::Bold {
                "\x1b[1m"
            } else {
                "\x1b[3m"
            };
            let mut next = code.to_owned();
            next.append(piece);
            next.append(res.as_str());
            proof {
                let tail = sorted@.subrange(k as int, ns as int);
                assert(tail[0] == sorted@[k as int]);
                assert(tail.drop_first() =~= sorted@.subrange(k as int + 1, ns as int));
                assert(next@ =~= ansi_code(e) + self.value@.subrange(e.1 as int, pointer as int)
                    + res@);
            }
            res = next;
            pointer = e.1;
            k += 1;
        }
        let piece = self.value.as_str().substring_char(0, pointer);
        let mut out = piece.to_owned();
        out.append(res.as_str());
        proof {
            assert(sorted@.subrange(ns as int, ns as int) =~= Seq::<(Formatting, usize, bool)>::empty());
            assert(out@ =~= self.value@.subrange(0, pointer as int) + res@);
        }
        out
    }
}

/// The text of the items joined with `sep` inserted between consecutive
/// non-empty items.
pub open spec fn join_text(items: Seq<DisplayString>, sep: Seq<char>) -> Seq<char>
    decreases items.len(),
{
    if items.len() == 0 {
        Seq::empty()
    } else {
        let t = join_text(items.drop_last(), sep);
        let e = items.last();
        t + (if e.value@.len() > 0 && t.len() > 0 {
            sep
        } else {
            Seq::empty()
        }) + e.value@
    }
}

/// The committed spans of the items joined as in [`join_text`]: each item's
/// spans shifted to where its text begins in the joined string.
pub open spec fn join_spans(items: Seq<DisplayString>, sep: Seq<char>) -> Seq<FormatSpan>
    decreases items.len(),
{
    if items.len() == 0 {
        Seq::empty()
    } else {
        let t = join_text(items.drop_last(), sep);
        let e = items.last();
        let lead: int = if e.value@.len() > 0 && t.len() > 0 {
            sep.len() as int
        } else {
            0
        };
        join_spans(items.drop_last(), sep) + spans_shifted(e.formatting@, t.len() + lead)
    }
}

impl DisplayString {
    /// Joins a number of display strings, inserting `joiner` as plain text
    /// between consecutive non-empty items.
    #[verifier::loop_isolation(false)]
    pub fn join(items: &[DisplayString], joiner: &str) -> (res: DisplayString)
        requires
            forall|i: int| 0 <= i < items@.len() ==> (#[trigger] items@[i]).wf(),
        ensures
            res.value@ == join_text(items@, joiner@),
            res.formatting@ == join_spans(items@, joiner@),
            res.pending_formatting@ == Seq::<(usize, Formatting)>::empty(),
            res.wf(),
    {
        let mut res = DisplayString::new();
        let n = items.len();
        let mut i: usize = 0;
        while i < n
            invariant
                i <= n,
                res.value@ == join_text(items@.subrange(0, i as int), joiner@),
                res.formatting@ == join_spans(items@.subrange(0, i as int), joiner@),
                res.pending_formatting@ == Seq::<(usize, Formatting)>::empty(),
                res.wf(),
            decreases n - i,
        {
            let e = &items[i];
            if !e.is_empty() && !res.is_empty() {
                res.push_str(joiner);
            }
            res.append(e);
            proof {
                let pre = items@.subrange(0, i as int);
                assert(items@.subrange(0, i as int + 1).drop_last() =~= pre);
                assert(items@.subrange(0, i as int + 1).last() == items@[i as int]);
                assert(res.value@ =~= join_text(items@.subrange(0, i as int + 1), joiner@));
                assert(res.formatting@ =~= join_spans(items@.subrange(0, i as int + 1), joiner@));
            }
            i += 1;
        }
        proof {
            assert(items@.subrange(0, n as int) =~= items@);
        }
        res
    }
}

/// Law: concatenation of display strings is associative on text content.
/// By [`DisplayString::append`]'s contract the text of `(a + b) + c` is
/// `(a.value + b.value) + c.value` and the text of `a + (b + c)` is
/// `a.value + (b.value + c.value)`; the two are the same sequence.
pub proof fn lemma_concat_value_associative(a: DisplayString, b: DisplayString, c: DisplayString)
    ensures
        (a.value@ + b.value@) + c.value@ == a.value@ + (b.value@ + c.value@),
{
    assert((a.value@ + b.value@) + c.value@ =~= a.value@ + (b.value@ + c.value@));
}

/// Law: after `a.append(b)` (with `b` having no pending spans), the
/// committed spans are `a.formatting + spans_shifted(b.formatting, |a.value|)`
/// by [`DisplayString::append`]'s contract; in that sequence every span of
/// `a` is unchanged and every span of `b` appears shifted by exactly the
/// length of `a`'s text before the call.
pub proof fn lemma_append_span_offsets(a: Seq<FormatSpan>, b: Seq<FormatSpan>, o: int)
    ensures
        (a + spans_shifted(b, o)).len() == a.len() + b.len(),
        forall|i: int| 0 <= i < a.len() ==> (a + spans_shifted(b, o))[i] == a[i],
        forall|i: int|
            0 <= i < b.len() ==> (a + spans_shifted(b, o))[a.len() + i] == span_shifted(b[i], o),
{
}

/// Law: rendering a `DisplayString` with no committed spans yields the
/// plain text unchanged.
pub proof fn lemma_render_no_spans(text: Seq<char>)
    ensures
        spec_render_ansi(text, Seq::<FormatSpan>::empty()) == text,
{
    assert(span_events(Seq::<FormatSpan>::empty()) =~= Seq::<(Formatting, usize, bool)>::empty());
    assert(sort_desc(Seq::<(Formatting, usize, bool)>::empty()) =~= Seq::<(
        Formatting,
        usize,
        bool,
    )>::empty());
    assert(text.subrange(0, text.len() as int) + Seq::<char>::empty() =~= text);
}

/// Law: the ANSI rendering depends only on the text and the committed
/// spans, so it is a pure function of that state: two renders of equal
/// committed state yield the identical string.
pub proof fn lemma_render_pure(a: DisplayString, b: DisplayString)
    requires
        a.value@ == b.value@,
        a.formatting@ == b.formatting@,
    ensures
        spec_render_ansi(a.value@, a.formatting@) == spec_render_ansi(b.value@, b.formatting@),
{
}

/// Law: rendering a `DisplayString` whose single committed span is `Bold`
/// over all of its (non-empty) text gives the bold code, the text, and the
/// reset code.
pub proof fn lemma_render_single_bold(text: Seq<char>, l: usize)
    requires
        l as nat == text.len(),
        text.len() > 0,
    ensures
        spec_render_ansi(text, seq![FormatSpan { start: 0, end: l, kind: Formatting::Bold }])
            == "\x1b[1m"@ + text + "\x1b[0m"@,
{
    let sp = FormatSpan { start: 0, end: l, kind: Formatting::Bold };
    let spans = seq![sp];
    let e0 = (Formatting::Bold, 0usize, false);
    let e1 = (Formatting::Bold, l, true);
    assert(spans.drop_last() =~= Seq::<FormatSpan>::empty());
    assert(span_events(Seq::<FormatSpan>::empty()) =~= Seq::<(Formatting, usize, bool)>::empty());
    assert(spans.last() == sp);
    assert(span_events(spans) =~= seq![e0, e1]);
    assert(seq![e0, e1].drop_last() =~= seq![e0]);
    assert(seq![e0].drop_last() =~= Seq::<(Formatting, usize, bool)>::empty());
    assert(sort_desc(Seq::<(Formatting, usize, bool)>::empty()) =~= Seq::<(
        Formatting,
        usize,
        bool,
    )>::empty());
    assert(insert_desc(Seq::<(Formatting, usize, bool)>::empty(), e0) =~= seq![e0]);
    assert(sort_desc(seq![e0]) =~= seq![e0]);
    assert(insert_desc(seq![e0], e1) =~= seq![e1, e0]);
    assert(sort_desc(seq![e0, e1]) =~= seq![e1, e0]);
    let evs = seq![e1, e0];
    assert(evs.drop_first() =~= seq![e0]);
    assert(seq![e0].drop_first() =~= Seq::<(Formatting, usize, bool)>::empty());
    let acc1 = ansi_code(e1) + text.subrange(l as int, l as int) + Seq::<char>::empty();
    assert(acc1 =~= "\x1b[0m"@);
    let acc2 = ansi_code(e0) + text.subrange(0, l as int) + acc1;
    assert(text.subrange(0, l as int) =~= text);
    assert(acc2 =~= "\x1b[1m"@ + text + "\x1b[0m"@);
    assert(render_events(text, evs, l as int, Seq::<char>::empty()) == render_events(
        text,
        seq![e0],
        l as int,
        acc1,
    ));
    assert(render_events(text, seq![e0], l as int, acc1) == render_events(
        text,
        Seq::<(Formatting, usize, bool)>::empty(),
        0,
        acc2,
    ));
    assert(text.subrange(0, 0) + acc2 =~= acc2);
    assert(spec_render_ansi(text, spans) == acc2);
}

} // verus!
