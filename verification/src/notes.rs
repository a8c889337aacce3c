//! The notes source: the note record handed back by the notes application,
//! the result item built from it, and the body markup for a new note.

use vstd::prelude::*;
use crate::model::{handler_icon, CommandItem, CommandType, Handler};

verus! {

/// One note as the notes application reports it.
#[derive(Debug, Clone)]
pub struct Note {
    pub id: String,
    pub title: String,
    pub folder: String,
    pub created_at: String,
    pub updated_at: String,
}

/// The display label of a note result: the title with its folder appended.
pub open spec fn note_label(title: Seq<char>, folder: Seq<char>) -> Seq<char> {
    title + " ("@ + folder + ")"@
}

/// The body markup of a new note: the title as a heading, then the body in
/// its own block when there is one.
pub open spec fn note_body_spec(title: Seq<char>, body: Seq<char>) -> Seq<char> {
    let heading = "<div><h1>"@ + title + "</h1></div>"@;
    if body.len() == 0 {
        heading
    } else {
        heading + "\n<div>"@ + body + "</div>"@
    }
}

/// Format the body markup for a new note; see `note_body_spec`.
pub fn format_note_body(title: &str, body: &str) -> (r: String)
    ensures
        r@ == note_body_spec(title@, body@),
{
    let mut out = String::new();
    out.append("<div><h1>");
    out.append(title);
    out.append("</h1></div>");
    if !body.is_empty() {
        out.append("\n<div>");
        out.append(body);
        out.append("</div>");
    }
    out
}

/// The result item for a note: the labelled title, with the note identifier
/// as the payload to open it by.
pub fn note_to_item(note: &Note) -> (r: CommandItem)
    ensures
        r@.label == note_label(note.title@, note.folder@),
        r@.handler == Handler::Note,
        r@.value == note.id@,
        r@.icon == handler_icon(Handler::Note),
        (r@.ran_at is None),
        (r@.base64_icon is None),
        r@.metadata == Seq::<(Seq<char>, Seq<char>)>::empty(),
        r@.kind == CommandType::Unknown,
{
    let mut label = String::new();
    label.append(note.title.as_str());
    label.append(" (");
    label.append(note.folder.as_str());
    label.append(")");
    CommandItem::new(label.as_str(), Handler::Note, note.id.as_str())
}

} // verus!
