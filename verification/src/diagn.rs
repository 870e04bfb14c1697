//! Messages about the assembled source.
use vstd::prelude::*;

verus! {

/// A place in a source file.
#[derive(Copy, Clone, Debug, PartialEq, Eq)]
pub struct Span {
    /// Which of the files that were read.
    pub file: usize,
    pub start: usize,
    pub end: usize,
}

/// A text about a place.
#[derive(Debug)]
pub struct Note {
    pub descr: String,
    pub span: Span,
}

/// An error: a text about a place, and the notes that enclose it, outermost first.
#[derive(Debug)]
pub struct Message {
    pub descr: String,
    pub span: Span,
    pub parents: Vec<Note>,
}

/// The errors found so far, and the notes that enclose the errors to come.
#[derive(Debug)]
pub struct Report {
    pub messages: Vec<Message>,
    pub parents: Vec<Note>,
}

pub struct NoteView {
    pub descr: Seq<char>,
    pub span: Span,
}

#[verifier::ext_equal]
pub struct MessageView {
    pub descr: Seq<char>,
    pub span: Span,
    pub parents: Seq<NoteView>,
}

#[verifier::ext_equal]
pub struct ReportView {
    pub messages: Seq<MessageView>,
    pub parents: Seq<NoteView>,
}

impl View for Note {
    type V = NoteView;

    open spec fn view(&self) -> NoteView {
        NoteView { descr: self.descr@, span: self.span }
    }
}

impl View for Message {
    type V = MessageView;

    open spec fn view(&self) -> MessageView {
        MessageView { descr: self.descr@, span: self.span, parents: notes(self.parents@) }
    }
}

impl View for Report {
    type V = ReportView;

    open spec fn view(&self) -> ReportView {
        ReportView { messages: messages(self.messages@), parents: notes(self.parents@) }
    }
}

pub open spec fn notes(notes: Seq<Note>) -> Seq<NoteView> {
    notes.map_values(|n: Note| n@)
}

pub open spec fn messages(messages: Seq<Message>) -> Seq<MessageView> {
    messages.map_values(|m: Message| m@)
}

/// An error that nothing encloses.
pub open spec fn error(descr: Seq<char>, span: Span) -> MessageView {
    MessageView { descr, span, parents: Seq::empty() }
}

/// The same messages with further notes around them.
pub open spec fn enclosed_in(
    parents: Seq<NoteView>,
    messages: Seq<MessageView>,
) -> Seq<MessageView> {
    messages.map_values(|m: MessageView| MessageView { parents: parents + m.parents, ..m })
}

impl ReportView {
    /// No message and no open note.
    pub open spec fn empty() -> ReportView {
        ReportView { messages: Seq::empty(), parents: Seq::empty() }
    }

    /// The report after `messages`, each enclosed in the open notes.
    pub open spec fn with(self, messages: Seq<MessageView>) -> ReportView {
        ReportView { messages: self.messages + enclosed_in(self.parents, messages), ..self }
    }

    /// The report with one more open note.
    pub open spec fn opened(self, note: NoteView) -> ReportView {
        ReportView { parents: self.parents.push(note), ..self }
    }
}

/// Reporting two rows of messages is reporting both in a row.
pub proof fn lemma_with_with(report: ReportView, a: Seq<MessageView>, b: Seq<MessageView>)
    ensures
        report.with(a).with(b) == report.with(a + b),
{
    assert(report.with(a).with(b) =~= report.with(a + b));
}

/// Reporting no message changes nothing.
pub proof fn lemma_with_nothing(report: ReportView)
    ensures
        report.with(Seq::empty()) == report,
{
    assert(report.with(Seq::empty()) =~= report);
}

/// What is reported under an open note is enclosed in that note.
pub proof fn lemma_with_opened(report: ReportView, note: NoteView, a: Seq<MessageView>)
    ensures
        report.opened(note).with(a).messages == report.with(enclosed_in(seq![note], a)).messages,
        report.opened(note).with(a).parents == report.parents.push(note),
{
    assert forall|i: int| 0 <= i < a.len() implies #[trigger] enclosed_in(
        report.parents.push(note),
        a,
    )[i] == enclosed_in(report.parents, enclosed_in(seq![note], a))[i] by {
        assert(report.parents.push(note) + a[i].parents =~= report.parents + (seq![note]
            + a[i].parents));
    }
    assert(report.opened(note).with(a).messages =~= report.with(
        enclosed_in(seq![note], a),
    ).messages);
}

/// Copies of `notes`, followed by `rest`.
fn joined_notes(notes: &Vec<Note>, rest: Vec<Note>) -> (r: Vec<Note>)
    ensures
        self::notes(r@) == self::notes(notes@) + self::notes(rest@),
{
    let mut rest = rest;
    let ghost tail = rest@;
    let mut out: Vec<Note> = Vec::new();
    let mut i: usize = 0;
    while i < notes.len()
        invariant
            i <= notes@.len(),
            self::notes(out@) =~= self::notes(notes@.take(i as int)),
        decreases notes@.len() - i,
    {
        let note = &notes[i];
        out.push(Note { descr: note.descr.clone(), span: note.span });
        assert(notes@.take(i + 1) =~= notes@.take(i as int).push(*note));
        assert(self::notes(out@) =~= self::notes(notes@.take(i as int)).push(note@));
        i += 1;
    }
    assert(notes@.take(i as int) =~= notes@);
    out.append(&mut rest);
    assert(self::notes(out@) =~= self::notes(notes@) + self::notes(tail));
    out
}

impl Report {
    /// A report without messages.
    pub fn new() -> (r: Report)
        ensures
            r@ == ReportView::empty(),
    {
        let r = Report { messages: Vec::new(), parents: Vec::new() };
        assert(r@ =~= ReportView::empty());
        r
    }

    /// Whether any error was reported.
    pub fn has_errors(&self) -> (r: bool)
        ensures
            r == (self@.messages.len() > 0),
    {
        self.messages.len() > 0
    }

    /// Reports a message inside the open notes.
    pub fn message(&mut self, message: Message)
        ensures
            final(self)@ == old(self)@.with(seq![message@]),
    {
        let Message { descr, span, parents } = message;
        let parents = joined_notes(&self.parents, parents);
        self.messages.push(Message { descr, span, parents });
        assert(self@ =~= old(self)@.with(seq![message@]));
    }

    /// Reports an error at `span`.
    pub fn error_span(&mut self, descr: &str, span: Span)
        ensures
            final(self)@ == old(self)@.with(seq![error(descr@, span)]),
    {
        let message = Message { descr: descr.to_owned(), span, parents: Vec::new() };
        assert(message@ =~= error(descr@, span));
        self.message(message);
    }

    /// Reports each of `messages` inside the open notes.
    pub fn absorb(&mut self, messages: Vec<Message>)
        ensures
            final(self)@ == old(self)@.with(self::messages(messages@)),
    {
        let ghost all = messages@;
        proof {
            lemma_with_nothing(self@);
            assert(self::messages(all.take(0)) =~= Seq::empty());
        }
        for message in iter: messages
            invariant
                iter.seq() == all,
                self@ == old(self)@.with(self::messages(all.take(iter.index() as int))),
        {
            let ghost i = iter.index() as int;
            let ghost before = self::messages(all.take(i));
            let ghost view = message@;
            self.message(message);
            proof {
                lemma_with_with(old(self)@, before, seq![view]);
                assert(before + seq![view] =~= self::messages(all.take(i + 1)));
            }
        }
        assert(all.take(all.len() as int) =~= all);
    }

    /// Hands all messages on to `other`.
    pub fn transfer_to(self, other: &mut Report)
        ensures
            final(other)@ == old(other)@.with(self@.messages),
    {
        other.absorb(self.messages);
    }

    /// Opens a note that encloses all messages until it is closed.
    pub fn push_parent(&mut self, descr: &str, span: Span)
        ensures
            final(self)@ == old(self)@.opened(NoteView { descr: descr@, span }),
    {
        let note = Note { descr: descr.to_owned(), span };
        self.parents.push(note);
        assert(self@ =~= old(self)@.opened(NoteView { descr: descr@, span }));
    }

    /// Closes the note that was opened last.
    pub fn pop_parent(&mut self)
        requires
            old(self)@.parents.len() > 0,
        ensures
            final(self)@ == (ReportView { parents: old(self)@.parents.drop_last(), ..old(self)@ }),
    {
        let _ = self.parents.pop();
        assert(self@ =~= (ReportView { parents: old(self)@.parents.drop_last(), ..old(self)@ }));
    }
}

} // verus!
