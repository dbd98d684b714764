//! The input modes: what each mode-switching command does to the input
//! context, the command line and the recorder, and where a shell command
//! leaves the input context.
use vstd::prelude::*;

use crate::editor::formatter::FormatterRef;
use crate::editor::SbyteError;
use crate::text::chars_of;

verus! {

/// What the input layer does for a command: switch the input context
/// (`Context`), switch it and start the command line with a text
/// (`ContextWithBuffer`), bind keys in the default mode (`AssignInput`) or in
/// a named mode (`AssignModeInput`), switch to inserting and step right
/// (`Append`), stop the recording under way (`StopRecording`), or hand the
/// command to the shell (`Shell`).
#[derive(Debug, PartialEq, Eq)]
pub enum CommandStep {
    Context(String),
    ContextWithBuffer(String, String),
    AssignInput,
    AssignModeInput,
    Append,
    StopRecording,
    Shell,
}

/// A `CommandStep` with its texts as character sequences.
pub enum StepView {
    Context(Seq<char>),
    ContextWithBuffer(Seq<char>, Seq<char>),
    AssignInput,
    AssignModeInput,
    Append,
    StopRecording,
    Shell,
}

impl View for CommandStep {
    type V = StepView;

    open spec fn view(&self) -> StepView {
        match self {
            CommandStep::Context(c) => StepView::Context(c@),
            CommandStep::ContextWithBuffer(c, b) => StepView::ContextWithBuffer(c@, b@),
            CommandStep::AssignInput => StepView::AssignInput,
            CommandStep::AssignModeInput => StepView::AssignModeInput,
            CommandStep::Append => StepView::Append,
            CommandStep::StopRecording => StepView::StopRecording,
            CommandStep::Shell => StepView::Shell,
        }
    }
}

/// Whether two texts are the same, character for character.
pub(crate) fn same_text(a: &str, b: &str) -> (r: bool)
    ensures
        r == (a@ == b@),
{
    let x = chars_of(a);
    let y = chars_of(b);
    if x.len() != y.len() {
        return false;
    }
    let mut i: usize = 0;
    while i < x.len()
        invariant
            x@ == a@,
            y@ == b@,
            x@.len() == y@.len(),
            i <= x@.len(),
            forall|j: int| 0 <= j < i ==> x@[j] == y@[j],
        decreases x@.len() - i,
    {
        if x[i] != y[i] {
            return false;
        }
        i += 1;
    }
    proof {
        assert(x@ =~= y@);
    }
    true
}

/// The overwrite mode for the active numeric view.
pub open spec fn overwrite_context(formatter: FormatterRef) -> StepView {
    match formatter {
        FormatterRef::BIN => StepView::Context("OVERWRITE_BIN"@),
        FormatterRef::HEX => StepView::Context("OVERWRITE_HEX"@),
        FormatterRef::DEC => StepView::Context("OVERWRITE_DEC"@),
    }
}

fn overwrite_step(formatter: FormatterRef) -> (s: CommandStep)
    ensures
        s@ == overwrite_context(formatter),
{
    match formatter {
        FormatterRef::BIN => CommandStep::Context("OVERWRITE_BIN".to_owned()),
        FormatterRef::HEX => CommandStep::Context("OVERWRITE_HEX".to_owned()),
        FormatterRef::DEC => CommandStep::Context("OVERWRITE_DEC".to_owned()),
    }
}

/// What the input layer does for the command `funcref`, given whether a
/// recording is under way and the active numeric view: the mode-switching
/// commands change the input context (overwriting in the mode of the
/// active view), some start the command line with a command word, the
/// record key stops a recording under way or starts the command line with
/// `rec `, and any other command goes to the shell.
pub open spec fn command_step_spec(funcref: Seq<char>, recording: bool, formatter: FormatterRef) -> StepView {
    if funcref == "ASSIGN_INPUT"@ {
        StepView::AssignInput
    } else if funcref == "ASSIGN_MODE_INPUT"@ {
        StepView::AssignModeInput
    } else if funcref == "MODE_SET_INSERT_ASCII"@ {
        StepView::Context("INSERT_ASCII"@)
    } else if funcref == "MODE_SET_INSERT_SPECIAL"@ {
        StepView::ContextWithBuffer("CMD"@, "insert "@)
    } else if funcref == "MODE_SET_OVERWRITE_SPECIAL"@ {
        StepView::ContextWithBuffer("CMD"@, "overwrite "@)
    } else if funcref == "MODE_SET_OVERWRITE"@ {
        overwrite_context(formatter)
    } else if funcref == "MODE_SET_OVERWRITE_ASCII"@ {
        StepView::Context("OVERWRITE_ASCII"@)
    } else if funcref == "MODE_SET_APPEND"@ {
        StepView::Append
    } else if funcref == "MODE_SET_DEFAULT"@ {
        StepView::Context("DEFAULT"@)
    } else if funcref == "MODE_SET_CMD"@ {
        StepView::Context("CMD"@)
    } else if funcref == "MODE_SET_MASK_AND"@ {
        StepView::ContextWithBuffer("CMD"@, "and"@)
    } else if funcref == "MODE_SET_MASK_OR"@ {
        StepView::ContextWithBuffer("CMD"@, "or "@)
    } else if funcref == "MODE_SET_MASK_XOR"@ {
        StepView::ContextWithBuffer("CMD"@, "xor "@)
    } else if funcref == "MODE_SET_SEARCH"@ {
        StepView::ContextWithBuffer("CMD"@, "find "@)
    } else if funcref == "MODE_SET_RECORD_KEY"@ {
        if recording { StepView::StopRecording } else { StepView::ContextWithBuffer("CMD"@, "rec "@) }
    } else if funcref == "MODE_SET_PLAYBACK_KEY"@ {
        StepView::ContextWithBuffer("CMD"@, "play "@)
    } else {
        StepView::Shell
    }
}

/// What the input layer does for the command `funcref`.
pub fn command_step(funcref: &str, recording: bool, formatter: FormatterRef) -> (s: CommandStep)
    ensures
        s@ == command_step_spec(funcref@, recording, formatter),
{
    if same_text(funcref, "ASSIGN_INPUT") {
        CommandStep::AssignInput
    } else if same_text(funcref, "ASSIGN_MODE_INPUT") {
        CommandStep::AssignModeInput
    } else if same_text(funcref, "MODE_SET_INSERT_ASCII") {
        CommandStep::Context("INSERT_ASCII".to_owned())
    } else if same_text(funcref, "MODE_SET_INSERT_SPECIAL") {
        CommandStep::ContextWithBuffer("CMD".to_owned(), "insert ".to_owned())
    } else if same_text(funcref, "MODE_SET_OVERWRITE_SPECIAL") {
        CommandStep::ContextWithBuffer("CMD".to_owned(), "overwrite ".to_owned())
    } else if same_text(funcref, "MODE_SET_OVERWRITE") {
        overwrite_step(formatter)
    } else if same_text(funcref, "MODE_SET_OVERWRITE_ASCII") {
        CommandStep::Context("OVERWRITE_ASCII".to_owned())
    } else if same_text(funcref, "MODE_SET_APPEND") {
        CommandStep::Append
    } else if same_text(funcref, "MODE_SET_DEFAULT") {
        CommandStep::Context("DEFAULT".to_owned())
    } else if same_text(funcref, "MODE_SET_CMD") {
        CommandStep::Context("CMD".to_owned())
    } else if same_text(funcref, "MODE_SET_MASK_AND") {
        CommandStep::ContextWithBuffer("CMD".to_owned(), "and".to_owned())
    } else if same_text(funcref, "MODE_SET_MASK_OR") {
        CommandStep::ContextWithBuffer("CMD".to_owned(), "or ".to_owned())
    } else if same_text(funcref, "MODE_SET_MASK_XOR") {
        CommandStep::ContextWithBuffer("CMD".to_owned(), "xor ".to_owned())
    } else if same_text(funcref, "MODE_SET_SEARCH") {
        CommandStep::ContextWithBuffer("CMD".to_owned(), "find ".to_owned())
    } else if same_text(funcref, "MODE_SET_RECORD_KEY") {
        if recording { CommandStep::StopRecording } else { CommandStep::ContextWithBuffer("CMD".to_owned(), "rec ".to_owned()) }
    } else if same_text(funcref, "MODE_SET_PLAYBACK_KEY") {
        CommandStep::ContextWithBuffer("CMD".to_owned(), "play ".to_owned())
    } else {
        CommandStep::Shell
    }
}

/// Where the input context goes once the shell has run the command
/// `funcref` with result `r`: back to `DEFAULT` after a command line that
/// ran, after an unknown command and after an empty command line; nowhere
/// otherwise.
pub open spec fn context_after_shell_spec(funcref: Seq<char>, r: Result<(), SbyteError>) -> bool {
    ||| (r is Ok && funcref == "RUN_CUSTOM_COMMAND"@)
    ||| r matches Err(SbyteError::InvalidCommand(_))
    ||| r matches Err(SbyteError::BufferEmpty)
}

/// The input context to go to once the shell has run `funcref` with
/// result `r`, if any.
pub fn context_after_shell(funcref: &str, r: &Result<(), SbyteError>) -> (c: Option<String>)
    ensures
        match c {
            Some(x) => context_after_shell_spec(funcref@, *r) && x@ == "DEFAULT"@,
            None => !context_after_shell_spec(funcref@, *r),
        },
{
    let back = match r {
        Ok(()) => same_text(funcref, "RUN_CUSTOM_COMMAND"),
        Err(SbyteError::InvalidCommand(_)) => true,
        Err(SbyteError::BufferEmpty) => true,
        Err(_) => false,
    };
    if back {
        Some("DEFAULT".to_owned())
    } else {
        None
    }
}

} // verus!

verus! {

/// A letter `A` to `Z` in lower case; any other character as it is.
pub open spec fn lower_char(c: char) -> char {
    if 'A' <= c && c <= 'Z' {
        ((c as u32) + 32) as char
    } else {
        c
    }
}

/// A text with its capital letters in lower case.
pub open spec fn lower_text(s: Seq<char>) -> Seq<char> {
    s.map_values(|c: char| lower_char(c))
}

/// Each mask command `MODE_SET_MASK_<OP>` (for `OP` one of `AND`, `OR`,
/// `XOR`) opens the command line on the command word of that same mask
/// operation, `<OP>` in lower case, followed by at most a space, whatever
/// the recording state and the numeric view.
pub proof fn mask_modes_open_their_own_command(op: Seq<char>, recording: bool, formatter: FormatterRef)
    requires
        op == "AND"@ || op == "OR"@ || op == "XOR"@,
    ensures
        command_step_spec("MODE_SET_MASK_"@ + op, recording, formatter) matches StepView::ContextWithBuffer(c, t)
            && c == "CMD"@
            && (t == lower_text(op) || t == lower_text(op).push(' ')),
{
    reveal_strlit("ASSIGN_INPUT");
    reveal_strlit("ASSIGN_MODE_INPUT");
    reveal_strlit("MODE_SET_INSERT_ASCII");
    reveal_strlit("MODE_SET_INSERT_SPECIAL");
    reveal_strlit("MODE_SET_OVERWRITE_SPECIAL");
    reveal_strlit("MODE_SET_OVERWRITE");
    reveal_strlit("MODE_SET_OVERWRITE_ASCII");
    reveal_strlit("MODE_SET_APPEND");
    reveal_strlit("MODE_SET_DEFAULT");
    reveal_strlit("MODE_SET_CMD");
    reveal_strlit("MODE_SET_MASK_AND");
    reveal_strlit("MODE_SET_MASK_OR");
    reveal_strlit("MODE_SET_MASK_XOR");
    reveal_strlit("MODE_SET_MASK_");
    reveal_strlit("AND");
    reveal_strlit("OR");
    reveal_strlit("XOR");
    reveal_strlit("and");
    reveal_strlit("or ");
    reveal_strlit("xor ");
    let f = "MODE_SET_MASK_"@ + op;
    assert(f[9] == 'M');
    assert(f[10] == 'A');
    assert(f[11] == 'S');
    assert(f[0] == 'M');
    assert(f != "ASSIGN_MODE_INPUT"@ && f != "MODE_SET_DEFAULT"@) by {
        assert("ASSIGN_MODE_INPUT"@[0] == 'A');
        assert("MODE_SET_DEFAULT"@[9] == 'D');
    }
    if op == "AND"@ {
        assert(f =~= "MODE_SET_MASK_AND"@);
        assert(lower_text(op) =~= "and"@);
    } else if op == "OR"@ {
        assert(f =~= "MODE_SET_MASK_OR"@);
        assert(lower_text(op).push(' ') =~= "or "@);
    } else {
        assert(f =~= "MODE_SET_MASK_XOR"@);
        assert(f[14] == 'X' && "MODE_SET_MASK_AND"@[14] == 'A');
        assert(lower_text(op).push(' ') =~= "xor "@);
    }
}

} // verus!
