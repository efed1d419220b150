//! Text and color of one rendered task line.
//!
//! A task is shown as two leading spaces, the title in brackets (bold, in the
//! urgency's color), then a space and the content, ended by a carriage
//! return and newline so the line is correct under raw terminal modes. This
//! module computes the exact segments and the color; putting them on a
//! terminal is the outside layer's work.

use vstd::prelude::*;

use crate::task::{Task, Urgency};

verus! {

/// Display color of an urgency level.
#[derive(Clone, Copy, PartialEq, Eq, Structural, Debug)]
pub enum TermColor {
    /// For [`Urgency::Low`].
    Green,
    /// For [`Urgency::Medium`].
    Yellow,
    /// For [`Urgency::High`].
    Red,
}

/// The color a task of urgency `u` is shown in.
pub open spec fn color_of(u: Urgency) -> TermColor {
    match u {
        Urgency::Low => TermColor::Green,
        Urgency::Medium => TermColor::Yellow,
        Urgency::High => TermColor::Red,
    }
}

/// One task line, cut at the styling boundaries.
pub struct RenderedTask {
    /// Plain indent before any styling.
    pub indent: String,
    /// The part shown bold and colored: the title in brackets.
    pub styled: String,
    /// The plain remainder: a space, the content, and the line ending.
    pub rest: String,
    /// Color of the styled part.
    pub color: TermColor,
}

/// Computes the segments and color of one task's display line.
pub fn render_task(t: &Task) -> (r: RenderedTask)
    ensures
        r.color == color_of(t@.urgency),
        r.indent@ == "  "@,
        r.styled@ == "["@ + t@.title + "]"@,
        r.rest@ == " "@ + t@.content + "\r\n"@,
{
    let mut styled = "[".to_owned();
    styled.append(t.title.as_str());
    styled.append("]");
    let mut rest = " ".to_owned();
    rest.append(t.content.as_str());
    rest.append("\r\n");
    let color = match t.urgency {
        Urgency::Low => TermColor::Green,
        Urgency::Medium => TermColor::Yellow,
        Urgency::High => TermColor::Red,
    };
    RenderedTask { indent: "  ".to_owned(), styled, rest, color }
}

} // verus!
