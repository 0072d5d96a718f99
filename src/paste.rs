use vstd::prelude::*;

verus! {

/// One entry of the clipboard.
#[derive(Clone, Debug, PartialEq, Eq)]
pub enum ClipboardEntry {
    Text(String),
    Image,
    ExternalPaths,
}

/// An entry is a whole line when it is text whose last character is a line break.
pub open spec fn entry_ends_in_newline(e: ClipboardEntry) -> bool {
    match e {
        ClipboardEntry::Text(t) => t@.len() > 0 && t@.last() == '\n',
        _ => false,
    }
}

/// The clipboard holds at least one entry, and every entry is a whole line.
pub open spec fn spec_clipboard_ends_in_newline(entries: Seq<ClipboardEntry>) -> bool {
    entries.len() > 0 && forall|i: int| 0 <= i < entries.len() ==> entry_ends_in_newline(#[trigger] entries[i])
}

/// Whether a paste should land on a line of its own. An empty clipboard, or
/// one holding anything but text, gives `false`.
pub fn clipboard_ends_in_newline(entries: &Vec<ClipboardEntry>) -> (r: bool)
    ensures
        r == spec_clipboard_ends_in_newline(entries@),
{
    if entries.len() == 0 {
        return false;
    }
    let mut i: usize = 0;
    while i < entries.len()
        invariant
            i <= entries@.len(),
            forall|j: int| 0 <= j < i ==> entry_ends_in_newline(#[trigger] entries@[j]),
        decreases entries.len() - i,
    {
        let whole_line = match &entries[i] {
            ClipboardEntry::Text(t) => {
                let s = t.as_str();
                let n = s.unicode_len();
                n > 0 && s.get_char(n - 1) == '\n'
            },
            _ => false,
        };
        if !whole_line {
            return false;
        }
        i = i + 1;
    }
    true
}

/// A step of a paste, for the host to perform in order.
#[derive(Clone, Copy, Debug, PartialEq, Eq, Structural)]
pub enum PasteStep {
    /// Open an empty line above the caret's line and move the caret there.
    NewlineAbove,
    /// Open an empty line below the caret's line and move the caret there.
    NewlineBelow,
    /// The host's own paste, which replaces the selections.
    Paste,
    /// Delete one character before the caret.
    Backspace,
}

/// The steps of a paste: a clipboard of whole lines goes onto a new line
/// opened on the side given by `open_line`, and the blank line that the
/// pasted line break leaves behind is deleted; anything else is pasted in place.
pub open spec fn paste_steps(entries: Seq<ClipboardEntry>, open_line: PasteStep) -> Seq<PasteStep> {
    if spec_clipboard_ends_in_newline(entries) {
        seq![open_line, PasteStep::Paste, PasteStep::Backspace]
    } else {
        seq![PasteStep::Paste]
    }
}

fn plan_paste(entries: &Vec<ClipboardEntry>, open_line: PasteStep) -> (steps: Vec<PasteStep>)
    ensures
        steps@ == paste_steps(entries@, open_line),
{
    let whole_lines = clipboard_ends_in_newline(entries);
    let mut steps: Vec<PasteStep> = Vec::new();
    if whole_lines {
        steps.push(open_line);
    }
    steps.push(PasteStep::Paste);
    if whole_lines {
        steps.push(PasteStep::Backspace);
    }
    assert(steps@ =~= paste_steps(entries@, open_line));
    steps
}

/// Paste above: whole lines go onto a new line above the selection.
pub fn paste_above(entries: &Vec<ClipboardEntry>) -> (steps: Vec<PasteStep>)
    ensures
        steps@ == paste_steps(entries@, PasteStep::NewlineAbove),
{
    plan_paste(entries, PasteStep::NewlineAbove)
}

/// Paste below: whole lines go onto a new line below the selection.
pub fn paste_below(entries: &Vec<ClipboardEntry>) -> (steps: Vec<PasteStep>)
    ensures
        steps@ == paste_steps(entries@, PasteStep::NewlineBelow),
{
    plan_paste(entries, PasteStep::NewlineBelow)
}

} // verus!
