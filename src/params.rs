//! Run parameters: the initial-state choice, the setup fields of the batch
//! driver and the checks on integer fields.
use vstd::prelude::*;
use crate::text::{count_of, parse_count, trim, trimmed};

verus! {

/// How the spins of a fresh lattice are set.
#[derive(Clone, Copy, Debug, PartialEq, Eq, Structural)]
pub enum InitialState {
    Random,
    AllUp,
    AllDown,
}

/// The state that a label names, if any.
pub open spec fn state_of_label(t: Seq<char>) -> Option<InitialState> {
    if t == "Random"@ {
        Some(InitialState::Random)
    } else if t == "All Up  (+1)"@ {
        Some(InitialState::AllUp)
    } else if t == "All Down (-1)"@ {
        Some(InitialState::AllDown)
    } else {
        None
    }
}

impl InitialState {
    pub open spec fn label_view(self) -> Seq<char> {
        match self {
            InitialState::Random => "Random"@,
            InitialState::AllUp => "All Up  (+1)"@,
            InitialState::AllDown => "All Down (-1)"@,
        }
    }

    /// The label shown for the state and written to run summaries.
    pub fn label(self) -> (r: &'static str)
        ensures
            r@ == self.label_view(),
    {
        match self {
            InitialState::Random => "Random",
            InitialState::AllUp => "All Up  (+1)",
            InitialState::AllDown => "All Down (-1)",
        }
    }

    /// The state whose label is `s` once surrounding whitespace is removed.
    pub fn from_label(s: &str) -> (r: Option<InitialState>)
        ensures
            r == state_of_label(trimmed(s@)),
    {
        let t = String::from_str(trim(s));
        if t == String::from_str("Random") {
            Some(InitialState::Random)
        } else if t == String::from_str("All Up  (+1)") {
            Some(InitialState::AllUp)
        } else if t == String::from_str("All Down (-1)") {
            Some(InitialState::AllDown)
        } else {
            None
        }
    }

    /// Cyclic successor: Random, All Up, All Down, Random, ...
    pub fn next(self) -> (r: InitialState)
        ensures
            r == match self {
                InitialState::Random => InitialState::AllUp,
                InitialState::AllUp => InitialState::AllDown,
                InitialState::AllDown => InitialState::Random,
            },
    {
        match self {
            InitialState::Random => InitialState::AllUp,
            InitialState::AllUp => InitialState::AllDown,
            InitialState::AllDown => InitialState::Random,
        }
    }

    /// Cyclic predecessor, the inverse of [`InitialState::next`].
    pub fn prev(self) -> (r: InitialState)
        ensures
            r == match self {
                InitialState::Random => InitialState::AllDown,
                InitialState::AllUp => InitialState::Random,
                InitialState::AllDown => InitialState::AllUp,
            },
    {
        match self {
            InitialState::Random => InitialState::AllDown,
            InitialState::AllUp => InitialState::Random,
            InitialState::AllDown => InitialState::AllUp,
        }
    }
}

/// Why an integer field was refused.
#[derive(Clone, Copy, Debug, PartialEq, Eq, Structural)]
pub enum CountError {
    /// Not a count (optional `+`, decimal digits, within `usize`).
    NotCount,
    /// A count below the field's minimum.
    TooSmall,
}

/// Reads an integer field: surrounding whitespace is ignored, the rest must
/// be a count of at least `min`.
pub fn check_count(raw: &str, min: usize) -> (r: Result<usize, CountError>)
    ensures
        r == match count_of(trimmed(raw@)) {
            None => Err(CountError::NotCount),
            Some(v) => if v < min {
                Err(CountError::TooSmall)
            } else {
                Ok(v as usize)
            },
        },
{
    match parse_count(trim(raw)) {
        None => Err(CountError::NotCount),
        Some(v) => if v < min {
            Err(CountError::TooSmall)
        } else {
            Ok(v)
        },
    }
}

/// `"<label> must be a positive integer, got '<raw>'"`.
pub fn not_count_message(label: &str, raw: &str) -> (r: String)
    ensures
        r@ == label@ + " must be a positive integer, got '"@ + raw@ + "'"@,
{
    let mut m = String::from_str(label);
    m.append(" must be a positive integer, got '");
    m.append(raw);
    m.append("'");
    m
}

/// Field positions of the batch driver's setup form.
pub const BATCH_FIELD_L: usize = 0;
pub const BATCH_FIELD_J: usize = 1;
pub const BATCH_FIELD_H: usize = 2;
pub const BATCH_FIELD_T_START: usize = 3;
pub const BATCH_FIELD_T_END: usize = 4;
pub const BATCH_FIELD_T_STEP: usize = 5;
pub const BATCH_FIELD_MC_STEPS: usize = 6;
pub const BATCH_FIELD_THERM: usize = 7;
pub const BATCH_FIELD_STRIDE: usize = 8;
pub const BATCH_FIELD_SAMPLE_COUNT: usize = 9;
pub const BATCH_FIELD_P_START: usize = 10;
pub const BATCH_FIELD_P_END: usize = 11;
pub const BATCH_FIELD_P_STEP: usize = 12;
pub const BATCH_FIELD_T_WIN_MIN: usize = 13;
pub const BATCH_FIELD_T_WIN_MAX: usize = 14;
pub const BATCH_FIELD_TC_WIN_MIN: usize = 15;
pub const BATCH_FIELD_TC_WIN_MAX: usize = 16;
pub const BATCH_FIELD_COUNT: usize = 17;

/// The text each batch setup field starts with.
pub open spec fn batch_default_text(k: int) -> Seq<char> {
    if k == 0 {
        "32"@
    } else if k == 1 {
        "1"@
    } else if k == 2 {
        "0"@
    } else if k == 3 {
        "1"@
    } else if k == 4 {
        "4"@
    } else if k == 5 {
        "0.1"@
    } else if k == 6 {
        "10000"@
    } else if k == 7 {
        "5000"@
    } else if k == 8 {
        "10"@
    } else if k == 9 {
        "1"@
    } else if k == 10 {
        "0"@
    } else if k == 11 {
        "0.1"@
    } else if k == 12 {
        "0.01"@
    } else if k == 13 {
        "2"@
    } else if k == 14 {
        "2.45"@
    } else if k == 15 {
        "2.25"@
    } else {
        "2.45"@
    }
}

/// Setup form of the batch driver, which runs one simulation per disorder
/// probability of a grid.
pub struct BatchApp {
    pub fields: Vec<String>,
    pub selected: usize,
    pub error_msg: Option<String>,
}

impl BatchApp {
    /// The form with every field at its default text, the cursor on `L`
    /// and no error shown.
    pub fn new() -> (r: BatchApp)
        ensures
            r.fields@.len() == BATCH_FIELD_COUNT,
            forall|k: int| 0 <= k < BATCH_FIELD_COUNT ==> (#[trigger] r.fields@[k])@ == batch_default_text(k),
            r.selected == BATCH_FIELD_L,
            r.error_msg is None,
    {
        let mut f: Vec<String> = Vec::new();
        f.push(String::from_str("32"));
        f.push(String::from_str("1"));
        f.push(String::from_str("0"));
        f.push(String::from_str("1"));
        f.push(String::from_str("4"));
        f.push(String::from_str("0.1"));
        f.push(String::from_str("10000"));
        f.push(String::from_str("5000"));
        f.push(String::from_str("10"));
        f.push(String::from_str("1"));
        f.push(String::from_str("0"));
        f.push(String::from_str("0.1"));
        f.push(String::from_str("0.01"));
        f.push(String::from_str("2"));
        f.push(String::from_str("2.45"));
        f.push(String::from_str("2.25"));
        f.push(String::from_str("2.45"));
        BatchApp { fields: f, selected: BATCH_FIELD_L, error_msg: None }
    }

    /// Moves the cursor to the previous field; with the automatic window,
    /// the four window fields are skipped.
    pub fn move_up(&mut self, auto_window: bool)
        requires
            old(self).selected < BATCH_FIELD_COUNT,
        ensures
            final(self).selected == batch_up_target(old(self).selected as int, auto_window),
            final(self).fields == old(self).fields,
            final(self).error_msg is None,
    {
        let start = self.selected;
        let mut pos = self.selected;
        if pos > 0 {
            pos = pos - 1;
            while pos > 0 && auto_window && is_window_field(pos)
                invariant
                    pos < start < BATCH_FIELD_COUNT,
                    pos + 1 < start ==> auto_window && pos + 1 >= BATCH_FIELD_T_WIN_MIN,
                decreases pos,
            {
                pos = pos - 1;
            }
        }
        self.selected = pos;
        self.error_msg = None;
    }

    /// Moves the cursor to the next field; with the automatic window, the
    /// window fields are passed over, but the cursor stops on the last field
    /// when nothing follows them.
    pub fn move_down(&mut self, auto_window: bool)
        requires
            old(self).selected < BATCH_FIELD_COUNT,
        ensures
            final(self).selected == batch_down_target(old(self).selected as int, auto_window),
            final(self).fields == old(self).fields,
            final(self).error_msg is None,
    {
        let start = self.selected;
        let mut pos = self.selected;
        if pos + 1 < BATCH_FIELD_COUNT {
            pos = pos + 1;
            while pos + 1 < BATCH_FIELD_COUNT && auto_window && is_window_field(pos)
                invariant
                    start < pos < BATCH_FIELD_COUNT,
                    pos > start + 1 ==> auto_window && pos - 1 >= BATCH_FIELD_T_WIN_MIN && start + 1
                        >= BATCH_FIELD_T_WIN_MIN,
                decreases BATCH_FIELD_COUNT - pos,
            {
                pos = pos + 1;
            }
        }
        self.selected = pos;
        self.error_msg = None;
    }

    /// Switches between the automatic and the fixed window and returns the new
    /// mode; switching to the automatic window moves a cursor that stands on a
    /// window field to `p step`.
    pub fn toggle_window(&mut self, auto_window: bool) -> (r: bool)
        ensures
            r == !auto_window,
            final(self).selected == if r && is_window_field_spec(old(self).selected as int) {
                BATCH_FIELD_P_STEP
            } else {
                old(self).selected
            },
            final(self).fields == old(self).fields,
            final(self).error_msg is None,
    {
        let now = !auto_window;
        if now && is_window_field(self.selected) {
            self.selected = BATCH_FIELD_P_STEP;
        }
        self.error_msg = None;
        now
    }
}

/// The window fields, hidden when the window is chosen automatically.
pub open spec fn is_window_field_spec(k: int) -> bool {
    BATCH_FIELD_T_WIN_MIN <= k <= BATCH_FIELD_TC_WIN_MAX
}

pub fn is_window_field(k: usize) -> (r: bool)
    ensures
        r == is_window_field_spec(k as int),
{
    BATCH_FIELD_T_WIN_MIN <= k && k <= BATCH_FIELD_TC_WIN_MAX
}

/// Where the cursor goes from field `pos` on the key up.
pub open spec fn batch_up_target(pos: int, auto_window: bool) -> int {
    if pos == 0 {
        0
    } else if auto_window && pos - 1 >= BATCH_FIELD_T_WIN_MIN {
        BATCH_FIELD_P_STEP as int
    } else {
        pos - 1
    }
}

/// Where the cursor goes from field `pos` on the key down.
pub open spec fn batch_down_target(pos: int, auto_window: bool) -> int {
    if pos + 1 >= BATCH_FIELD_COUNT {
        pos
    } else if auto_window && pos + 1 >= BATCH_FIELD_T_WIN_MIN {
        BATCH_FIELD_TC_WIN_MAX as int
    } else {
        pos + 1
    }
}

} // verus!
